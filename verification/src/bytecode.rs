//! Loop bytecode: a compiler from `loop` bodies (and simple lambda bodies)
//! to a flat stack-machine program with slot-indexed variables, and the
//! machine that runs it.
use vstd::prelude::*;
use crate::text::{str_eq, chars_to_string, str_to_chars};
use crate::types::{LispVal, SVal, Env, lookup, lemma_sv_unfold, vals_view, binds_view, strings_view,
    clone_vals, clone_binds, check_gas};
use crate::display::{display, display_into, push_str};
use crate::helpers::{truthy, is_truthy};
use crate::builtins::{res_sv, nth_arg};

verus! {

broadcast use lemma_sv_unfold;

/// Bytecode instructions.
pub enum Op {
    /// Push the value of a slot.
    LoadSlot(usize),
    PushI64(i64),
    PushBool(bool),
    PushStr(String),
    PushNil,
    /// Push a copy of the top of the stack.
    Dup,
    /// Drop the top of the stack.
    Pop,
    /// Pop into a slot.
    StoreSlot(usize),
    /// Pop two numbers, push the result.
    Add,
    Sub,
    Mul,
    Div,
    Mod,
    /// Pop two values, push whether they are equal.
    Eq,
    /// Pop two numbers, push the comparison.
    Lt,
    Le,
    Gt,
    Ge,
    /// Pop; jump when truthy.
    JumpIfTrue(usize),
    /// Pop; jump when falsy.
    JumpIfFalse(usize),
    Jump(usize),
    /// Pop and return as the result.
    Return,
    /// Pop `n` values into slots `0..n` (last popped into slot 0) and restart.
    Recur(usize),
    /// Call a bytecode builtin on the top `n` values.
    BuiltinCall(String, usize),
    /// Push `slots[s] + imm` (and the other fused slot/immediate forms).
    SlotAddImm(usize, i64),
    SlotSubImm(usize, i64),
    SlotMulImm(usize, i64),
    SlotDivImm(usize, i64),
    SlotEqImm(usize, i64),
    SlotLtImm(usize, i64),
    SlotLeImm(usize, i64),
    SlotGtImm(usize, i64),
    SlotGeImm(usize, i64),
    /// `Recur` for a few slots.
    RecurDirect(usize),
    /// Jump when `slots[s]` compares so with `imm`.
    JumpIfSlotLtImm(usize, i64, usize),
    JumpIfSlotLeImm(usize, i64, usize),
    JumpIfSlotGtImm(usize, i64, usize),
    JumpIfSlotGeImm(usize, i64, usize),
    JumpIfSlotEqImm(usize, i64, usize),
    /// `RecurIncAccum(counter, accum, step, limit, exit)`: when
    /// `slots[counter] >= limit` jump to `exit`; otherwise add the counter to
    /// the accumulator, add `step` to the counter and restart.
    RecurIncAccum(usize, usize, i64, i64, usize),
}

/// Model of an instruction (strings as character sequences).
pub enum OpV {
    LoadSlot(int),
    PushI64(int),
    PushBool(bool),
    PushStr(Seq<char>),
    PushNil,
    Dup,
    Pop,
    StoreSlot(int),
    Add,
    Sub,
    Mul,
    Div,
    Mod,
    Eq,
    Lt,
    Le,
    Gt,
    Ge,
    JumpIfTrue(int),
    JumpIfFalse(int),
    Jump(int),
    Return,
    Recur(int),
    BuiltinCall(Seq<char>, int),
    SlotAddImm(int, int),
    SlotSubImm(int, int),
    SlotMulImm(int, int),
    SlotDivImm(int, int),
    SlotEqImm(int, int),
    SlotLtImm(int, int),
    SlotLeImm(int, int),
    SlotGtImm(int, int),
    SlotGeImm(int, int),
    RecurDirect(int),
    JumpIfSlotLtImm(int, int, int),
    JumpIfSlotLeImm(int, int, int),
    JumpIfSlotGtImm(int, int, int),
    JumpIfSlotGeImm(int, int, int),
    JumpIfSlotEqImm(int, int, int),
    RecurIncAccum(int, int, int, int, int),
}

impl View for Op {
    type V = OpV;

    open spec fn view(&self) -> OpV {
        match self {
            Op::LoadSlot(s) => OpV::LoadSlot(*s as int),
            Op::PushI64(n) => OpV::PushI64(*n as int),
            Op::PushBool(b) => OpV::PushBool(*b),
            Op::PushStr(s) => OpV::PushStr(s@),
            Op::PushNil => OpV::PushNil,
            Op::Dup => OpV::Dup,
            Op::Pop => OpV::Pop,
            Op::StoreSlot(s) => OpV::StoreSlot(*s as int),
            Op::Add => OpV::Add,
            Op::Sub => OpV::Sub,
            Op::Mul => OpV::Mul,
            Op::Div => OpV::Div,
            Op::Mod => OpV::Mod,
            Op::Eq => OpV::Eq,
            Op::Lt => OpV::Lt,
            Op::Le => OpV::Le,
            Op::Gt => OpV::Gt,
            Op::Ge => OpV::Ge,
            Op::JumpIfTrue(a) => OpV::JumpIfTrue(*a as int),
            Op::JumpIfFalse(a) => OpV::JumpIfFalse(*a as int),
            Op::Jump(a) => OpV::Jump(*a as int),
            Op::Return => OpV::Return,
            Op::Recur(n) => OpV::Recur(*n as int),
            Op::BuiltinCall(s, n) => OpV::BuiltinCall(s@, *n as int),
            Op::SlotAddImm(s, i) => OpV::SlotAddImm(*s as int, *i as int),
            Op::SlotSubImm(s, i) => OpV::SlotSubImm(*s as int, *i as int),
            Op::SlotMulImm(s, i) => OpV::SlotMulImm(*s as int, *i as int),
            Op::SlotDivImm(s, i) => OpV::SlotDivImm(*s as int, *i as int),
            Op::SlotEqImm(s, i) => OpV::SlotEqImm(*s as int, *i as int),
            Op::SlotLtImm(s, i) => OpV::SlotLtImm(*s as int, *i as int),
            Op::SlotLeImm(s, i) => OpV::SlotLeImm(*s as int, *i as int),
            Op::SlotGtImm(s, i) => OpV::SlotGtImm(*s as int, *i as int),
            Op::SlotGeImm(s, i) => OpV::SlotGeImm(*s as int, *i as int),
            Op::RecurDirect(n) => OpV::RecurDirect(*n as int),
            Op::JumpIfSlotLtImm(s, i, a) => OpV::JumpIfSlotLtImm(*s as int, *i as int, *a as int),
            Op::JumpIfSlotLeImm(s, i, a) => OpV::JumpIfSlotLeImm(*s as int, *i as int, *a as int),
            Op::JumpIfSlotGtImm(s, i, a) => OpV::JumpIfSlotGtImm(*s as int, *i as int, *a as int),
            Op::JumpIfSlotGeImm(s, i, a) => OpV::JumpIfSlotGeImm(*s as int, *i as int, *a as int),
            Op::JumpIfSlotEqImm(s, i, a) => OpV::JumpIfSlotEqImm(*s as int, *i as int, *a as int),
            Op::RecurIncAccum(c, a, st, l, e) => OpV::RecurIncAccum(*c as int, *a as int, *st as int, *l as int, *e as int),
        }
    }
}

/// Model of a program.
pub open spec fn code_view(code: Seq<Op>) -> Seq<OpV> {
    Seq::new(code.len(), |i: int| code[i]@)
}

/// A copy of an instruction.
pub fn op_clone(op: &Op) -> (r: Op)
    ensures
        r@ == op@,
{
    match op {
        Op::LoadSlot(s) => Op::LoadSlot(*s),
        Op::PushI64(n) => Op::PushI64(*n),
        Op::PushBool(b) => Op::PushBool(*b),
        Op::PushStr(s) => Op::PushStr(s.clone()),
        Op::PushNil => Op::PushNil,
        Op::Dup => Op::Dup,
        Op::Pop => Op::Pop,
        Op::StoreSlot(s) => Op::StoreSlot(*s),
        Op::Add => Op::Add,
        Op::Sub => Op::Sub,
        Op::Mul => Op::Mul,
        Op::Div => Op::Div,
        Op::Mod => Op::Mod,
        Op::Eq => Op::Eq,
        Op::Lt => Op::Lt,
        Op::Le => Op::Le,
        Op::Gt => Op::Gt,
        Op::Ge => Op::Ge,
        Op::JumpIfTrue(a) => Op::JumpIfTrue(*a),
        Op::JumpIfFalse(a) => Op::JumpIfFalse(*a),
        Op::Jump(a) => Op::Jump(*a),
        Op::Return => Op::Return,
        Op::Recur(n) => Op::Recur(*n),
        Op::BuiltinCall(s, n) => Op::BuiltinCall(s.clone(), *n),
        Op::SlotAddImm(s, i) => Op::SlotAddImm(*s, *i),
        Op::SlotSubImm(s, i) => Op::SlotSubImm(*s, *i),
        Op::SlotMulImm(s, i) => Op::SlotMulImm(*s, *i),
        Op::SlotDivImm(s, i) => Op::SlotDivImm(*s, *i),
        Op::SlotEqImm(s, i) => Op::SlotEqImm(*s, *i),
        Op::SlotLtImm(s, i) => Op::SlotLtImm(*s, *i),
        Op::SlotLeImm(s, i) => Op::SlotLeImm(*s, *i),
        Op::SlotGtImm(s, i) => Op::SlotGtImm(*s, *i),
        Op::SlotGeImm(s, i) => Op::SlotGeImm(*s, *i),
        Op::RecurDirect(n) => Op::RecurDirect(*n),
        Op::JumpIfSlotLtImm(s, i, a) => Op::JumpIfSlotLtImm(*s, *i, *a),
        Op::JumpIfSlotLeImm(s, i, a) => Op::JumpIfSlotLeImm(*s, *i, *a),
        Op::JumpIfSlotGtImm(s, i, a) => Op::JumpIfSlotGtImm(*s, *i, *a),
        Op::JumpIfSlotGeImm(s, i, a) => Op::JumpIfSlotGeImm(*s, *i, *a),
        Op::JumpIfSlotEqImm(s, i, a) => Op::JumpIfSlotEqImm(*s, *i, *a),
        Op::RecurIncAccum(c, a, st, l, e) => Op::RecurIncAccum(*c, *a, *st, *l, *e),
    }
}

// ---------------------------------------------------------------------------
// Values on the machine
// ---------------------------------------------------------------------------

/// The integer the machine reads from a value: a number's value, else zero.
pub open spec fn num_of(v: SVal) -> int {
    match v {
        SVal::Num(n) => n,
        _ => 0,
    }
}

/// The integer the machine reads from a value.
pub fn num_val(v: LispVal) -> (r: i64)
    ensures
        r == num_of(v.sv()),
{
    match v {
        LispVal::Num(n) => n,
        _ => 0,
    }
}

/// The integer the machine reads from a value.
pub fn num_val_ref(v: &LispVal) -> (r: i64)
    ensures
        r == num_of(v.sv()),
{
    match v {
        LispVal::Num(n) => *n,
        _ => 0,
    }
}

/// Equality as the machine decides it: numbers, booleans, strings and `nil`
/// compare by value; everything else is unequal.
pub open spec fn machine_eq(a: SVal, b: SVal) -> bool {
    match (a, b) {
        (SVal::Num(x), SVal::Num(y)) => x == y,
        (SVal::Bool(x), SVal::Bool(y)) => x == y,
        (SVal::Str(x), SVal::Str(y)) => x == y,
        (SVal::Nil, SVal::Nil) => true,
        _ => false,
    }
}

/// Equality as the machine decides it (see `machine_eq`).
pub fn lisp_eq(a: &LispVal, b: &LispVal) -> (r: bool)
    ensures
        r == machine_eq(a.sv(), b.sv()),
{
    match (a, b) {
        (LispVal::Num(x), LispVal::Num(y)) => *x == *y,
        (LispVal::Bool(x), LispVal::Bool(y)) => *x == *y,
        (LispVal::Str(x), LispVal::Str(y)) => str_eq(x.as_str(), y.as_str()),
        (LispVal::Nil, LispVal::Nil) => true,
        _ => false,
    }
}

/// The integer of argument `i` (zero when missing or not a number).
pub open spec fn num_arg(args: Seq<SVal>, i: int) -> int {
    match nth_arg(args, i) {
        Some(v) => num_of(v),
        None => 0,
    }
}

/// A checked result of integer arithmetic.
pub open spec fn in_i64(x: int) -> Result<SVal, Seq<char>> {
    if i64::MIN <= x <= i64::MAX { Ok(SVal::Num(x)) } else { Err("integer overflow"@) }
}

/// Printed forms of values, concatenated.
pub open spec fn displays(args: Seq<SVal>) -> Seq<char>
    decreases args.len(),
{
    if args.len() == 0 { Seq::empty() } else { displays(args.drop_last()) + display(args.last()) }
}

/// The builtins the machine knows, on evaluated arguments.
pub open spec fn machine_builtin(name: Seq<char>, args: Seq<SVal>) -> Result<SVal, Seq<char>> {
    if name == "abs"@ {
        in_i64(if num_arg(args, 0) < 0 { -num_arg(args, 0) } else { num_arg(args, 0) })
    } else if name == "min"@ {
        Ok(SVal::Num(if num_arg(args, 0) <= num_arg(args, 1) { num_arg(args, 0) } else { num_arg(args, 1) }))
    } else if name == "max"@ {
        Ok(SVal::Num(if num_arg(args, 0) >= num_arg(args, 1) { num_arg(args, 0) } else { num_arg(args, 1) }))
    } else if name == "to-string"@ {
        Ok(SVal::Str(display(match nth_arg(args, 0) { Some(v) => v, None => SVal::Nil })))
    } else if name == "str"@ {
        Ok(SVal::Str(displays(args)))
    } else if name == "car"@ {
        Ok(match nth_arg(args, 0) {
            Some(SVal::List(l)) => if l.len() > 0 { l[0] } else { SVal::Nil },
            _ => SVal::Nil,
        })
    } else if name == "cdr"@ {
        match nth_arg(args, 0) {
            Some(SVal::List(l)) => if l.len() > 0 { Ok(SVal::List(l.skip(1))) } else { Err("cdr: empty list"@) },
            _ => Ok(SVal::Nil),
        }
    } else if name == "cons"@ {
        Ok(SVal::List(seq![match nth_arg(args, 0) { Some(v) => v, None => SVal::Nil }] + match nth_arg(args, 1) {
            Some(SVal::List(l)) => l,
            _ => Seq::empty(),
        }))
    } else if name == "list"@ {
        Ok(SVal::List(args))
    } else if name == "length"@ {
        Ok(SVal::Num(match nth_arg(args, 0) {
            Some(SVal::List(l)) => ((l.len() as usize) as i64) as int,
            Some(SVal::Str(s)) => ((vstd::utf8::encode_utf8(s).len() as usize) as i64) as int,
            _ => 0,
        }))
    } else if name == "empty?"@ {
        Ok(SVal::Bool(match nth_arg(args, 0) {
            Some(SVal::List(l)) => l.len() == 0,
            Some(SVal::Nil) => true,
            _ => false,
        }))
    } else if name == "zero?"@ {
        Ok(SVal::Bool(num_arg(args, 0) == 0))
    } else if name == "pos?"@ {
        Ok(SVal::Bool(num_arg(args, 0) > 0))
    } else if name == "neg?"@ {
        Ok(SVal::Bool(num_arg(args, 0) < 0))
    } else if name == "mod"@ || name == "remainder"@ {
        if num_arg(args, 1) == 0 {
            Err(name + " by zero"@)
        } else if name == "mod"@ {
            if num_arg(args, 0) == i64::MIN && num_arg(args, 1) == -1 {
                Err("integer overflow"@)
            } else {
                Ok(SVal::Num(num_arg(args, 0) % num_arg(args, 1)))
            }
        } else {
            match (num_arg(args, 0) as i64).checked_rem(num_arg(args, 1) as i64) {
                Some(x) => Ok(SVal::Num(x as int)),
                None => Err("integer overflow"@),
            }
        }
    } else if name == "even?"@ {
        Ok(SVal::Bool((num_arg(args, 0) as i64).checked_rem(2) == Some(0i64)))
    } else if name == "odd?"@ {
        Ok(SVal::Bool((num_arg(args, 0) as i64).checked_rem(2) != Some(0i64)))
    } else {
        Err("loop bytecode: unknown builtin '"@ + name + "'"@)
    }
}

/// The machine's `max` answers one of its two arguments (as numbers) that
/// is at least as large as both; `min` one that is at most as large as both.
pub proof fn lemma_machine_max_min(args: Seq<SVal>)
    ensures
        machine_builtin("max"@, args) matches Ok(SVal::Num(m))
            && m >= num_arg(args, 0) && m >= num_arg(args, 1) && (m == num_arg(args, 0) || m == num_arg(args, 1)),
        machine_builtin("min"@, args) matches Ok(SVal::Num(m))
            && m <= num_arg(args, 0) && m <= num_arg(args, 1) && (m == num_arg(args, 0) || m == num_arg(args, 1)),
{
    reveal_strlit("abs");
    reveal_strlit("min");
    reveal_strlit("max");
    assert("max"@[0] == 'm' && "abs"@[0] == 'a' && "min"@[0] == 'm' && "min"@[1] == 'i' && "max"@[1] == 'a');
    assert("max"@ != "abs"@ && "max"@ != "min"@ && "min"@ != "abs"@);
}

/// The machine's `abs` answers the argument or its negation, whichever is
/// not negative, and fails with an overflow exactly where that does not
/// fit in an `i64`.
pub proof fn lemma_machine_abs(args: Seq<SVal>)
    ensures
        (machine_builtin("abs"@, args) is Ok) <==> -num_arg(args, 0) <= i64::MAX && num_arg(args, 0) <= i64::MAX,
        machine_builtin("abs"@, args) matches Ok(SVal::Num(m))
            ==> m >= 0 && (m == num_arg(args, 0) || m == -num_arg(args, 0)),
        machine_builtin("abs"@, args) matches Err(e) ==> e == "integer overflow"@,
{
    reveal_strlit("abs");
}

/// The names `machine_builtin` knows.
pub open spec fn machine_builtin_name(name: Seq<char>) -> bool {
    name == "abs"@ || name == "min"@ || name == "max"@ || name == "to-string"@ || name == "str"@
        || name == "car"@ || name == "cdr"@ || name == "cons"@ || name == "list"@ || name == "length"@
        || name == "empty?"@ || name == "zero?"@ || name == "pos?"@ || name == "neg?"@ || name == "mod"@
        || name == "remainder"@ || name == "even?"@ || name == "odd?"@
}

fn is_machine_builtin(name: &str) -> (r: bool)
    ensures
        r == machine_builtin_name(name@),
{
    str_eq(name, "abs") || str_eq(name, "min") || str_eq(name, "max") || str_eq(name, "to-string")
        || str_eq(name, "str") || str_eq(name, "car") || str_eq(name, "cdr") || str_eq(name, "cons")
        || str_eq(name, "list") || str_eq(name, "length") || str_eq(name, "empty?") || str_eq(name, "zero?")
        || str_eq(name, "pos?") || str_eq(name, "neg?") || str_eq(name, "mod") || str_eq(name, "remainder")
        || str_eq(name, "even?") || str_eq(name, "odd?")
}

fn arg_num(args: &Vec<LispVal>, i: usize) -> (r: i64)
    ensures
        r == num_arg(vals_view(args@), i as int),
{
    if i < args.len() {
        proof { assert(vals_view(args@)[i as int] == args@[i as int].sv()); }
        num_val_ref(&args[i])
    } else {
        0
    }
}

fn checked_num(x: Option<i64>) -> (r: Result<LispVal, String>)
    ensures
        match x { Some(v) => res_sv(r) == Ok::<SVal, Seq<char>>(SVal::Num(v as int)), None => res_sv(r) == Err::<SVal, Seq<char>>("integer overflow"@) },
{
    match x {
        Some(v) => Ok(LispVal::Num(v)),
        None => Err(String::from_str("integer overflow")),
    }
}

/// Evaluates a machine builtin on its arguments (see `machine_builtin`).
pub fn eval_builtin(name: &str, args: &Vec<LispVal>) -> (r: Result<LispVal, String>)
    ensures
        res_sv(r) == machine_builtin(name@, vals_view(args@)),
{
    let ghost va = vals_view(args@);
    if args.len() > 0 {
        assert(va[0] == args@[0].sv());
    }
    if args.len() > 1 {
        assert(va[1] == args@[1].sv());
    }
    if str_eq(name, "abs") {
        let a = arg_num(args, 0);
        if a < 0 { checked_num(0i64.checked_sub(a)) } else { Ok(LispVal::Num(a)) }
    } else if str_eq(name, "min") {
        let a = arg_num(args, 0);
        let b = arg_num(args, 1);
        Ok(LispVal::Num(if a <= b { a } else { b }))
    } else if str_eq(name, "max") {
        let a = arg_num(args, 0);
        let b = arg_num(args, 1);
        Ok(LispVal::Num(if a >= b { a } else { b }))
    } else if str_eq(name, "to-string") {
        if args.len() > 0 {
            Ok(LispVal::Str(args[0].to_lisp_string()))
        } else {
            Ok(LispVal::Str(LispVal::Nil.to_lisp_string()))
        }
    } else if str_eq(name, "str") {
        let mut out: Vec<char> = Vec::new();
        let mut i: usize = 0;
        assert(va.take(0) =~= Seq::<SVal>::empty());
        while i < args.len()
            invariant
                i <= args@.len(),
                va == vals_view(args@),
                out@ == displays(va.take(i as int)),
            decreases args.len() - i,
        {
            proof {
                assert(va.take(i + 1).drop_last() =~= va.take(i as int));
                assert(va.take(i + 1).last() == args@[i as int].sv());
            }
            display_into(&args[i], &mut out);
            i += 1;
        }
        assert(va.take(i as int) =~= va);
        Ok(LispVal::Str(chars_to_string(&out)))
    } else if str_eq(name, "car") {
        if args.len() > 0 {
            if let LispVal::List(l) = &args[0] {
                if l.len() > 0 {
                    proof { assert(vals_view(l@)[0] == l@[0].sv()); }
                    return Ok(l[0].deep_clone());
                }
            }
        }
        Ok(LispVal::Nil)
    } else if str_eq(name, "cdr") {
        if args.len() > 0 {
            if let LispVal::List(l) = &args[0] {
                if l.len() > 0 {
                    let t = crate::helpers::clone_from(l, 1);
                    assert(vals_view(l@).subrange(1, l@.len() as int) =~= vals_view(l@).skip(1));
                    return Ok(LispVal::List(t));
                }
                return Err(String::from_str("cdr: empty list"));
            }
        }
        Ok(LispVal::Nil)
    } else if str_eq(name, "cons") {
        let head = if args.len() > 0 { args[0].deep_clone() } else { LispVal::Nil };
        let mut n: Vec<LispVal> = Vec::new();
        let ghost hv = head.sv();
        n.push(head);
        if args.len() > 1 {
            if let LispVal::List(l) = &args[1] {
                let mut t = clone_vals(l);
                n.append(&mut t);
                assert(vals_view(n@) =~= seq![hv] + vals_view(l@));
                return Ok(LispVal::List(n));
            }
        }
        assert(vals_view(n@) =~= seq![hv] + Seq::<SVal>::empty());
        Ok(LispVal::List(n))
    } else if str_eq(name, "list") {
        Ok(LispVal::List(clone_vals(args)))
    } else if str_eq(name, "length") {
        if args.len() > 0 {
            match &args[0] {
                LispVal::List(l) => { return Ok(LispVal::Num(l.len() as i64)); },
                LispVal::Str(s) => { return Ok(LispVal::Num(s.as_str().len() as i64)); },
                _ => {},
            }
        }
        Ok(LispVal::Num(0))
    } else if str_eq(name, "empty?") {
        if args.len() > 0 {
            match &args[0] {
                LispVal::List(l) => { return Ok(LispVal::Bool(l.len() == 0)); },
                LispVal::Nil => { return Ok(LispVal::Bool(true)); },
                _ => {},
            }
        }
        Ok(LispVal::Bool(false))
    } else if str_eq(name, "zero?") {
        Ok(LispVal::Bool(arg_num(args, 0) == 0))
    } else if str_eq(name, "pos?") {
        Ok(LispVal::Bool(arg_num(args, 0) > 0))
    } else if str_eq(name, "neg?") {
        Ok(LispVal::Bool(arg_num(args, 0) < 0))
    } else if str_eq(name, "mod") || str_eq(name, "remainder") {
        let b = arg_num(args, 1);
        if b == 0 {
            let mut out: Vec<char> = Vec::new();
            push_str(&mut out, name);
            push_str(&mut out, " by zero");
            return Err(chars_to_string(&out));
        }
        let a = arg_num(args, 0);
        if str_eq(name, "mod") {
            checked_num(a.checked_rem_euclid(b))
        } else {
            checked_num(a.checked_rem(b))
        }
    } else if str_eq(name, "even?") {
        Ok(LispVal::Bool(arg_num(args, 0).checked_rem(2) == Some(0i64)))
    } else if str_eq(name, "odd?") {
        Ok(LispVal::Bool(arg_num(args, 0).checked_rem(2) != Some(0i64)))
    } else {
        let mut out: Vec<char> = Vec::new();
        push_str(&mut out, "loop bytecode: unknown builtin '");
        push_str(&mut out, name);
        push_str(&mut out, "'");
        Err(chars_to_string(&out))
    }
}

// ---------------------------------------------------------------------------
// The machine
// ---------------------------------------------------------------------------

/// Machine state: program counter, operand stack, slots.
pub struct MState {
    pub pc: int,
    pub stack: Seq<SVal>,
    pub slots: Seq<SVal>,
}

/// What one instruction does: go on from a new state, or stop with a result.
pub enum MStep {
    Next(MState),
    Halt(Result<SVal, Seq<char>>),
}

/// Pops the top of the stack; an empty stack gives `nil`.
pub open spec fn pop_val(stack: Seq<SVal>) -> (SVal, Seq<SVal>) {
    if stack.len() == 0 { (SVal::Nil, stack) } else { (stack.last(), stack.drop_last()) }
}

/// Pops `n` values; they come back deepest first.
pub open spec fn pop_n(stack: Seq<SVal>, n: nat) -> (Seq<SVal>, Seq<SVal>)
    decreases n,
{
    if n == 0 {
        (Seq::empty(), stack)
    } else {
        let (v, rest) = pop_val(stack);
        let (args, rest2) = pop_n(rest, (n - 1) as nat);
        (args.push(v), rest2)
    }
}

/// Pops `n` values into slots `n-1` down to `0`; `None` when a slot is
/// missing.
pub open spec fn recur_fill(stack: Seq<SVal>, slots: Seq<SVal>, n: nat) -> Option<(Seq<SVal>, Seq<SVal>)>
    decreases n,
{
    if n == 0 {
        Some((stack, slots))
    } else if n - 1 >= slots.len() {
        None
    } else {
        let (v, rest) = pop_val(stack);
        recur_fill(rest, slots.update(n - 1, v), (n - 1) as nat)
    }
}

pub open spec fn bad_slot() -> Seq<char> {
    "bytecode: slot out of range"@
}

pub open spec fn unsupported() -> Seq<char> {
    "compiled lambda: unsupported op"@
}

/// Binary integer arithmetic on the two top values.
pub open spec fn arith_op(op: OpV, a: int, b: int) -> Result<SVal, Seq<char>> {
    match op {
        OpV::Add => in_i64(a + b),
        OpV::Sub => in_i64(a - b),
        OpV::Mul => in_i64(a * b),
        OpV::Div => if b == 0 {
            Err("division by zero"@)
        } else {
            match (a as i64).checked_div(b as i64) {
                Some(q) => Ok(SVal::Num(q as int)),
                None => Err("integer overflow"@),
            }
        },
        _ => if b == 0 {
            Err("modulo by zero"@)
        } else {
            match (a as i64).checked_rem(b as i64) {
                Some(q) => Ok(SVal::Num(q as int)),
                None => Err("integer overflow"@),
            }
        },
    }
}

/// Integer comparisons.
pub open spec fn order_op(op: OpV, a: int, b: int) -> bool {
    match op {
        OpV::Lt | OpV::SlotLtImm(_, _) | OpV::JumpIfSlotLtImm(_, _, _) => a < b,
        OpV::Le | OpV::SlotLeImm(_, _) | OpV::JumpIfSlotLeImm(_, _, _) => a <= b,
        OpV::Gt | OpV::SlotGtImm(_, _) | OpV::JumpIfSlotGtImm(_, _, _) => a > b,
        OpV::Ge | OpV::SlotGeImm(_, _) | OpV::JumpIfSlotGeImm(_, _, _) => a >= b,
        _ => a == b,
    }
}

/// Pushes a result, or stops with its error.
pub open spec fn push_res(st: MState, stack: Seq<SVal>, r: Result<SVal, Seq<char>>) -> MStep {
    match r {
        Ok(v) => MStep::Next(MState { pc: st.pc + 1, stack: stack.push(v), slots: st.slots }),
        Err(e) => MStep::Halt(Err(e)),
    }
}

/// One instruction of the machine. In lambda mode, the instructions that
/// restart a loop (`recur` and its fused form) are refused.
pub open spec fn machine_step(code: Seq<OpV>, st: MState, lambda: bool) -> MStep {
    if !(0 <= st.pc < code.len()) {
        MStep::Halt(Err("bytecode: pc out of range"@))
    } else {
        let next = st.pc + 1;
        match code[st.pc] {
            OpV::LoadSlot(s) => if 0 <= s < st.slots.len() {
                MStep::Next(MState { pc: next, stack: st.stack.push(st.slots[s]), slots: st.slots })
            } else {
                MStep::Halt(Err(bad_slot()))
            },
            OpV::PushI64(n) => MStep::Next(MState { pc: next, stack: st.stack.push(SVal::Num(n)), slots: st.slots }),
            OpV::PushBool(b) => MStep::Next(MState { pc: next, stack: st.stack.push(SVal::Bool(b)), slots: st.slots }),
            OpV::PushStr(t) => MStep::Next(MState { pc: next, stack: st.stack.push(SVal::Str(t)), slots: st.slots }),
            OpV::PushNil => MStep::Next(MState { pc: next, stack: st.stack.push(SVal::Nil), slots: st.slots }),
            OpV::Dup => MStep::Next(MState { pc: next, stack: if st.stack.len() > 0 { st.stack.push(st.stack.last()) } else { st.stack }, slots: st.slots }),
            OpV::Pop => MStep::Next(MState { pc: next, stack: pop_val(st.stack).1, slots: st.slots }),
            OpV::StoreSlot(s) => if 0 <= s < st.slots.len() {
                MStep::Next(MState { pc: next, stack: pop_val(st.stack).1, slots: st.slots.update(s, pop_val(st.stack).0) })
            } else {
                MStep::Halt(Err(bad_slot()))
            },
            OpV::Add | OpV::Sub | OpV::Mul | OpV::Div | OpV::Mod => {
                let (b, s1) = pop_val(st.stack);
                let (a, s2) = pop_val(s1);
                push_res(st, s2, arith_op(code[st.pc], num_of(a), num_of(b)))
            },
            OpV::Eq => {
                let (b, s1) = pop_val(st.stack);
                let (a, s2) = pop_val(s1);
                MStep::Next(MState { pc: next, stack: s2.push(SVal::Bool(machine_eq(a, b))), slots: st.slots })
            },
            OpV::Lt | OpV::Le | OpV::Gt | OpV::Ge => {
                let (b, s1) = pop_val(st.stack);
                let (a, s2) = pop_val(s1);
                MStep::Next(MState { pc: next, stack: s2.push(SVal::Bool(order_op(code[st.pc], num_of(a), num_of(b)))), slots: st.slots })
            },
            OpV::JumpIfTrue(t) => MStep::Next(MState { pc: if truthy(pop_val(st.stack).0) { t } else { next }, stack: pop_val(st.stack).1, slots: st.slots }),
            OpV::JumpIfFalse(t) => MStep::Next(MState { pc: if !truthy(pop_val(st.stack).0) { t } else { next }, stack: pop_val(st.stack).1, slots: st.slots }),
            OpV::Jump(t) => MStep::Next(MState { pc: t, stack: st.stack, slots: st.slots }),
            OpV::Return => MStep::Halt(Ok(pop_val(st.stack).0)),
            OpV::Recur(n) | OpV::RecurDirect(n) => if lambda {
                MStep::Halt(Err(unsupported()))
            } else {
                match recur_fill(st.stack, st.slots, n as nat) {
                    Some((stack, slots)) => MStep::Next(MState { pc: 0, stack, slots }),
                    None => MStep::Halt(Err(bad_slot())),
                }
            },
            OpV::BuiltinCall(name, n) => {
                let (args, rest) = pop_n(st.stack, n as nat);
                push_res(st, rest, machine_builtin(name, args))
            },
            OpV::SlotAddImm(s, imm) | OpV::SlotSubImm(s, imm) | OpV::SlotMulImm(s, imm) => if 0 <= s < st.slots.len() {
                let v = num_of(st.slots[s]);
                push_res(st, st.stack, match code[st.pc] {
                    OpV::SlotAddImm(_, _) => in_i64(v + imm),
                    OpV::SlotSubImm(_, _) => in_i64(v - imm),
                    _ => in_i64(v * imm),
                })
            } else {
                MStep::Halt(Err(bad_slot()))
            },
            OpV::SlotDivImm(s, imm) => if imm == 0 {
                MStep::Halt(Err("division by zero"@))
            } else if 0 <= s < st.slots.len() {
                push_res(st, st.stack, arith_op(OpV::Div, num_of(st.slots[s]), imm))
            } else {
                MStep::Halt(Err(bad_slot()))
            },
            OpV::SlotEqImm(s, imm) | OpV::SlotLtImm(s, imm) | OpV::SlotLeImm(s, imm) | OpV::SlotGtImm(s, imm)
            | OpV::SlotGeImm(s, imm) => if 0 <= s < st.slots.len() {
                MStep::Next(MState { pc: next, stack: st.stack.push(SVal::Bool(order_op(code[st.pc], num_of(st.slots[s]), imm))), slots: st.slots })
            } else {
                MStep::Halt(Err(bad_slot()))
            },
            OpV::JumpIfSlotLtImm(s, imm, t) | OpV::JumpIfSlotLeImm(s, imm, t) | OpV::JumpIfSlotGtImm(s, imm, t)
            | OpV::JumpIfSlotGeImm(s, imm, t) | OpV::JumpIfSlotEqImm(s, imm, t) => if 0 <= s < st.slots.len() {
                MStep::Next(MState { pc: if order_op(code[st.pc], num_of(st.slots[s]), imm) { t } else { next }, stack: st.stack, slots: st.slots })
            } else {
                MStep::Halt(Err(bad_slot()))
            },
            OpV::RecurIncAccum(c, a, step, limit, exit) => if lambda {
                MStep::Halt(Err(unsupported()))
            } else if 0 <= c < st.slots.len() && 0 <= a < st.slots.len() {
                let cv = num_of(st.slots[c]);
                if cv >= limit {
                    MStep::Next(MState { pc: exit, stack: st.stack, slots: st.slots })
                } else {
                    let av = num_of(st.slots[a]);
                    if !(i64::MIN <= av + cv <= i64::MAX) || !(i64::MIN <= cv + step <= i64::MAX) {
                        MStep::Halt(Err("integer overflow"@))
                    } else {
                        let slots1 = st.slots.update(a, SVal::Num(av + cv));
                        MStep::Next(MState { pc: 0, stack: st.stack, slots: slots1.update(c, SVal::Num(cv + step)) })
                    }
                }
            } else {
                MStep::Halt(Err(bad_slot()))
            },
        }
    }
}

/// An instruction whose jump targets are at most `tmax` and whose slots and
/// `recur` counts fit `n` slots.
pub open spec fn op_ok(op: OpV, tmax: int, n: int) -> bool {
    match op {
        OpV::LoadSlot(s) | OpV::StoreSlot(s) => 0 <= s < n,
        OpV::SlotAddImm(s, _) | OpV::SlotSubImm(s, _) | OpV::SlotMulImm(s, _) | OpV::SlotDivImm(s, _)
        | OpV::SlotEqImm(s, _) | OpV::SlotLtImm(s, _) | OpV::SlotLeImm(s, _) | OpV::SlotGtImm(s, _)
        | OpV::SlotGeImm(s, _) => 0 <= s < n,
        OpV::JumpIfTrue(t) | OpV::JumpIfFalse(t) | OpV::Jump(t) => 0 <= t <= tmax,
        OpV::JumpIfSlotLtImm(s, _, t) | OpV::JumpIfSlotLeImm(s, _, t) | OpV::JumpIfSlotGtImm(s, _, t)
        | OpV::JumpIfSlotGeImm(s, _, t) | OpV::JumpIfSlotEqImm(s, _, t) => 0 <= s < n && 0 <= t <= tmax,
        OpV::Recur(k) | OpV::RecurDirect(k) => 0 <= k <= n,
        OpV::RecurIncAccum(c, a, _, _, t) => 0 <= c < n && 0 <= a < n && 0 <= t <= tmax,
        _ => true,
    }
}

/// `op_ok` holds for larger bounds too.
pub proof fn lemma_op_ok_mono(op: OpV, t1: int, n1: int, t2: int, n2: int)
    requires
        op_ok(op, t1, n1),
        t1 <= t2,
        n1 <= n2,
    ensures
        op_ok(op, t2, n2),
{
}

/// Every instruction of `code` is `op_ok`.
pub open spec fn ops_ok(code: Seq<OpV>, tmax: int, n: int) -> bool {
    forall|i: int| 0 <= i < code.len() ==> op_ok(#[trigger] code[i], tmax, n)
}

/// A well-formed program for `n` slots: it ends with `Return`, and every
/// jump lands inside it and every slot it names exists.
pub open spec fn code_ok(code: Seq<OpV>, n: int) -> bool {
    &&& code.len() > 0
    &&& code.last() == OpV::Return
    &&& ops_ok(code, code.len() - 1, n)
}

/// A machine state inside the program, with `n` slots.
pub open spec fn state_ok(code: Seq<OpV>, st: MState, n: int) -> bool {
    0 <= st.pc < code.len() && st.slots.len() == n
}

/// The step at `st` would fault: the program counter is outside the
/// program, or the instruction names a slot that does not exist.
pub open spec fn step_faults(code: Seq<OpV>, st: MState) -> bool {
    if !(0 <= st.pc < code.len()) {
        true
    } else {
        let n = st.slots.len() as int;
        match code[st.pc] {
            OpV::LoadSlot(s) | OpV::StoreSlot(s) => !(0 <= s < n),
            OpV::SlotAddImm(s, _) | OpV::SlotSubImm(s, _) | OpV::SlotMulImm(s, _) | OpV::SlotDivImm(s, _)
            | OpV::SlotEqImm(s, _) | OpV::SlotLtImm(s, _) | OpV::SlotLeImm(s, _) | OpV::SlotGtImm(s, _)
            | OpV::SlotGeImm(s, _) => !(0 <= s < n),
            OpV::JumpIfSlotLtImm(s, _, _) | OpV::JumpIfSlotLeImm(s, _, _) | OpV::JumpIfSlotGtImm(s, _, _)
            | OpV::JumpIfSlotGeImm(s, _, _) | OpV::JumpIfSlotEqImm(s, _, _) => !(0 <= s < n),
            OpV::Recur(k) | OpV::RecurDirect(k) => !(0 <= k <= n),
            OpV::RecurIncAccum(c, a, _, _, _) => !(0 <= c < n && 0 <= a < n),
            _ => false,
        }
    }
}

/// Filling `k` slots from the stack keeps the number of slots.
proof fn lemma_recur_fill(stack: Seq<SVal>, slots: Seq<SVal>, k: nat)
    requires
        k <= slots.len(),
    ensures
        recur_fill(stack, slots, k) matches Some((_, sl)) && sl.len() == slots.len(),
    decreases k,
{
    if k > 0 {
        let (v, rest) = pop_val(stack);
        lemma_recur_fill(rest, slots.update(k - 1, v), (k - 1) as nat);
    }
}

/// A well-formed program never faults: from a state inside it with its
/// slots, a step neither leaves the program nor names a missing slot, and
/// the state it goes on from is again inside it with the same slots.
pub proof fn lemma_machine_safe(code: Seq<OpV>, n: int, st: MState, lambda: bool)
    requires
        code_ok(code, n),
        state_ok(code, st, n),
    ensures
        !step_faults(code, st),
        machine_step(code, st, lambda) matches MStep::Next(st2) ==> state_ok(code, st2, n),
{
    assert(op_ok(code[st.pc], code.len() - 1, n));
    if st.pc == code.len() - 1 {
        assert(code[st.pc] == OpV::Return);
    }
    match code[st.pc] {
        OpV::Recur(k) | OpV::RecurDirect(k) => {
            lemma_recur_fill(st.stack, st.slots, k as nat);
        },
        OpV::StoreSlot(s) => {},
        OpV::RecurIncAccum(c, a, step, limit, exit) => {},
        _ => {},
    }
}

/// Runs a loop program for at most `fuel` instructions. Each pass through
/// the loop starts at instruction 0 and spends one unit of gas there (the
/// first pass too); with no gas left the run fails with `out of gas`.
/// Returns the result and the gas left.
pub open spec fn run_loop(code: Seq<OpV>, st: MState, gas: nat, fuel: nat) -> (Result<SVal, Seq<char>>, nat)
    decreases fuel,
{
    if fuel == 0 {
        (Err("loop step limit exceeded"@), gas)
    } else if st.pc == 0 && gas == 0 {
        (Err("out of gas"@), gas)
    } else {
        let gas2: nat = if st.pc == 0 { (gas - 1) as nat } else { gas };
        match machine_step(code, st, false) {
            MStep::Next(st2) => run_loop(code, st2, gas2, (fuel - 1) as nat),
            MStep::Halt(r) => (r, gas2),
        }
    }
}

/// A compiled loop never gains gas, and a run that starts a pass spends at
/// least one unit unless it stops for want of gas.
pub proof fn lemma_run_loop_spends(code: Seq<OpV>, st: MState, gas: nat, fuel: nat)
    ensures
        run_loop(code, st, gas, fuel).1 <= gas,
        fuel > 0 && st.pc == 0 ==> run_loop(code, st, gas, fuel).1 < gas
            || run_loop(code, st, gas, fuel).0 == Err::<SVal, Seq<char>>("out of gas"@),
    decreases fuel,
{
    if fuel > 0 && !(st.pc == 0 && gas == 0) {
        let gas2: nat = if st.pc == 0 { (gas - 1) as nat } else { gas };
        match machine_step(code, st, false) {
            MStep::Next(st2) => { lemma_run_loop_spends(code, st2, gas2, (fuel - 1) as nat); },
            MStep::Halt(_) => {},
        }
    }
}

/// Runs a lambda program: every sixteenth instruction spends one unit of
/// gas. Returns the result and the gas left.
pub open spec fn run_lambda(code: Seq<OpV>, st: MState, count: nat, gas: nat, fuel: nat) -> (Result<SVal, Seq<char>>, nat)
    decreases fuel,
{
    if fuel == 0 {
        (Err("compiled lambda: step limit exceeded"@), gas)
    } else if (count + 1) % 16 == 0 && gas == 0 {
        (Err("out of gas"@), gas)
    } else {
        let gas2: nat = if (count + 1) % 16 == 0 { (gas - 1) as nat } else { gas };
        match machine_step(code, st, true) {
            MStep::Next(st2) => run_lambda(code, st2, count + 1, gas2, (fuel - 1) as nat),
            MStep::Halt(r) => (r, gas2),
        }
    }
}

/// Result of one executed instruction.
pub enum StepOut {
    Next(usize),
    Halt(Result<LispVal, String>),
}

fn pop_or_nil(stack: &mut Vec<LispVal>) -> (v: LispVal)
    ensures
        v.sv() == pop_val(vals_view(old(stack)@)).0,
        vals_view(final(stack)@) == pop_val(vals_view(old(stack)@)).1,
{
    let ghost sv = vals_view(stack@);
    match stack.pop() {
        Some(v) => {
            assert(vals_view(stack@) =~= sv.drop_last());
            v
        },
        None => LispVal::Nil,
    }
}

proof fn lemma_push_view(s: Seq<LispVal>, v: LispVal)
    ensures
        vals_view(s.push(v)) == vals_view(s).push(v.sv()),
{
    assert(vals_view(s.push(v)) =~= vals_view(s).push(v.sv()));
}

fn pop_args(stack: &mut Vec<LispVal>, n: usize) -> (args: Vec<LispVal>)
    ensures
        vals_view(args@) == pop_n(vals_view(old(stack)@), n as nat).0,
        vals_view(final(stack)@) == pop_n(vals_view(old(stack)@), n as nat).1,
    decreases n,
{
    if n == 0 {
        let a: Vec<LispVal> = Vec::new();
        assert(vals_view(a@) =~= Seq::<SVal>::empty());
        a
    } else {
        let v = pop_or_nil(stack);
        let mut args = pop_args(stack, n - 1);
        let ghost before = args@;
        args.push(v);
        proof { lemma_push_view(before, v); }
        args
    }
}

fn recur_into(stack: &mut Vec<LispVal>, slots: &mut Vec<LispVal>, n: usize) -> (ok: bool)
    ensures
        match recur_fill(vals_view(old(stack)@), vals_view(old(slots)@), n as nat) {
            Some((st, sl)) => ok && vals_view(final(stack)@) == st && vals_view(final(slots)@) == sl,
            None => !ok,
        },
    decreases n,
{
    if n == 0 {
        return true;
    }
    if n - 1 >= slots.len() {
        return false;
    }
    let v = pop_or_nil(stack);
    let ghost before = slots@;
    let ghost vv = v.sv();
    slots.set(n - 1, v);
    assert(vals_view(slots@) =~= vals_view(before).update(n - 1, vv));
    recur_into(stack, slots, n - 1)
}

fn push_val(stack: &mut Vec<LispVal>, v: LispVal)
    ensures
        vals_view(final(stack)@) == vals_view(old(stack)@).push(v.sv()),
{
    let ghost before = stack@;
    stack.push(v);
    proof { lemma_push_view(before, v); }
}

fn push_result(stack: &mut Vec<LispVal>, pc: usize, r: Result<LispVal, String>) -> (out: StepOut)
    requires
        pc < usize::MAX,
    ensures
        match res_sv(r) {
            Ok(v) => out == StepOut::Next((pc + 1) as usize) && vals_view(final(stack)@) == vals_view(old(stack)@).push(v),
            Err(e) => out matches StepOut::Halt(x) && res_sv(x) == Err::<SVal, Seq<char>>(e),
        },
{
    match r {
        Ok(v) => {
            push_val(stack, v);
            StepOut::Next(pc + 1)
        },
        Err(e) => StepOut::Halt(Err(e)),
    }
}

fn arith_exec(op: &Op, a: i64, b: i64) -> (r: Result<LispVal, String>)
    requires
        op@ is Add || op@ is Sub || op@ is Mul || op@ is Div || op@ is Mod,
    ensures
        res_sv(r) == arith_op(op@, a as int, b as int),
{
    match op {
        Op::Add => checked_num(a.checked_add(b)),
        Op::Sub => checked_num(a.checked_sub(b)),
        Op::Mul => checked_num(a.checked_mul(b)),
        Op::Div => if b == 0 { Err(String::from_str("division by zero")) } else { checked_num(a.checked_div(b)) },
        _ => if b == 0 { Err(String::from_str("modulo by zero")) } else { checked_num(a.checked_rem(b)) },
    }
}

fn order_exec(op: &Op, a: i64, b: i64) -> (r: bool)
    ensures
        r == order_op(op@, a as int, b as int),
{
    match op {
        Op::Lt | Op::SlotLtImm(_, _) | Op::JumpIfSlotLtImm(_, _, _) => a < b,
        Op::Le | Op::SlotLeImm(_, _) | Op::JumpIfSlotLeImm(_, _, _) => a <= b,
        Op::Gt | Op::SlotGtImm(_, _) | Op::JumpIfSlotGtImm(_, _, _) => a > b,
        Op::Ge | Op::SlotGeImm(_, _) | Op::JumpIfSlotGeImm(_, _, _) => a >= b,
        _ => a == b,
    }
}

/// The model of a machine state.
pub open spec fn mstate(pc: int, stack: Seq<LispVal>, slots: Seq<LispVal>) -> MState {
    MState { pc, stack: vals_view(stack), slots: vals_view(slots) }
}

/// Executes the instruction at `pc` (see `machine_step`).
pub fn exec_step(code: &Vec<Op>, pc: usize, stack: &mut Vec<LispVal>, slots: &mut Vec<LispVal>, lambda: bool) -> (out: StepOut)
    ensures
        match machine_step(code_view(code@), mstate(pc as int, old(stack)@, old(slots)@), lambda) {
            MStep::Next(st) => out matches StepOut::Next(p) && p == st.pc
                && vals_view(final(stack)@) == st.stack && vals_view(final(slots)@) == st.slots,
            MStep::Halt(r) => out matches StepOut::Halt(x) && res_sv(x) == r,
        },
{
    if pc >= code.len() {
        return StepOut::Halt(Err(String::from_str("bytecode: pc out of range")));
    }
    let ghost cv = code_view(code@);
    assert(cv[pc as int] == code@[pc as int]@);
    let ghost sv = vals_view(stack@);
    let ghost slv = vals_view(slots@);
    let op = &code[pc];
    match op {
        Op::LoadSlot(s) => {
            if *s >= slots.len() {
                return StepOut::Halt(Err(String::from_str("bytecode: slot out of range")));
            }
            proof { assert(slv[*s as int] == slots@[*s as int].sv()); }
            let v = slots[*s].deep_clone();
            push_val(stack, v);
            StepOut::Next(pc + 1)
        },
        Op::PushI64(n) => { push_val(stack, LispVal::Num(*n)); StepOut::Next(pc + 1) },
        Op::PushBool(b) => { push_val(stack, LispVal::Bool(*b)); StepOut::Next(pc + 1) },
        Op::PushStr(t) => { push_val(stack, LispVal::Str(t.clone())); StepOut::Next(pc + 1) },
        Op::PushNil => { push_val(stack, LispVal::Nil); StepOut::Next(pc + 1) },
        Op::Dup => {
            if stack.len() > 0 {
                let k = stack.len() - 1;
                proof { assert(sv[k as int] == stack@[k as int].sv()); }
                let v = stack[k].deep_clone();
                push_val(stack, v);
            }
            StepOut::Next(pc + 1)
        },
        Op::Pop => {
            let _ = pop_or_nil(stack);
            StepOut::Next(pc + 1)
        },
        Op::StoreSlot(s) => {
            if *s >= slots.len() {
                return StepOut::Halt(Err(String::from_str("bytecode: slot out of range")));
            }
            let v = pop_or_nil(stack);
            let ghost vv = v.sv();
            slots.set(*s, v);
            assert(vals_view(slots@) =~= slv.update(*s as int, vv));
            StepOut::Next(pc + 1)
        },
        Op::Add | Op::Sub | Op::Mul | Op::Div | Op::Mod => {
            let b = num_val(pop_or_nil(stack));
            let a = num_val(pop_or_nil(stack));
            push_result(stack, pc, arith_exec(op, a, b))
        },
        Op::Eq => {
            let b = pop_or_nil(stack);
            let a = pop_or_nil(stack);
            push_val(stack, LispVal::Bool(lisp_eq(&a, &b)));
            StepOut::Next(pc + 1)
        },
        Op::Lt | Op::Le | Op::Gt | Op::Ge => {
            let b = num_val(pop_or_nil(stack));
            let a = num_val(pop_or_nil(stack));
            push_val(stack, LispVal::Bool(order_exec(op, a, b)));
            StepOut::Next(pc + 1)
        },
        Op::JumpIfTrue(t) => {
            let v = pop_or_nil(stack);
            if is_truthy(&v) { StepOut::Next(*t) } else { StepOut::Next(pc + 1) }
        },
        Op::JumpIfFalse(t) => {
            let v = pop_or_nil(stack);
            if !is_truthy(&v) { StepOut::Next(*t) } else { StepOut::Next(pc + 1) }
        },
        Op::Jump(t) => {
            StepOut::Next(*t)
        },
        Op::Return => {
            let v = pop_or_nil(stack);
            StepOut::Halt(Ok(v))
        },
        Op::Recur(n) | Op::RecurDirect(n) => {
            if lambda { return StepOut::Halt(Err(String::from_str("compiled lambda: unsupported op"))); }
            if recur_into(stack, slots, *n) {
                StepOut::Next(0)
            } else {
                StepOut::Halt(Err(String::from_str("bytecode: slot out of range")))
            }
        },
        Op::BuiltinCall(name, n) => {
            let args = pop_args(stack, *n);
            let r = eval_builtin(name.as_str(), &args);
            push_result(stack, pc, r)
        },
        Op::SlotAddImm(s, imm) | Op::SlotSubImm(s, imm) | Op::SlotMulImm(s, imm) => {
            if *s >= slots.len() {
                return StepOut::Halt(Err(String::from_str("bytecode: slot out of range")));
            }
            proof { assert(slv[*s as int] == slots@[*s as int].sv()); }
            let v = num_val_ref(&slots[*s]);
            let r = match op {
                Op::SlotAddImm(_, _) => checked_num(v.checked_add(*imm)),
                Op::SlotSubImm(_, _) => checked_num(v.checked_sub(*imm)),
                _ => checked_num(v.checked_mul(*imm)),
            };
            push_result(stack, pc, r)
        },
        Op::SlotDivImm(s, imm) => {
            if *imm == 0 {
                return StepOut::Halt(Err(String::from_str("division by zero")));
            }
            if *s >= slots.len() {
                return StepOut::Halt(Err(String::from_str("bytecode: slot out of range")));
            }
            proof { assert(slv[*s as int] == slots@[*s as int].sv()); }
            let v = num_val_ref(&slots[*s]);
            push_result(stack, pc, checked_num(v.checked_div(*imm)))
        },
        Op::SlotEqImm(s, imm) | Op::SlotLtImm(s, imm) | Op::SlotLeImm(s, imm) | Op::SlotGtImm(s, imm)
        | Op::SlotGeImm(s, imm) => {
            if *s >= slots.len() {
                return StepOut::Halt(Err(String::from_str("bytecode: slot out of range")));
            }
            proof { assert(slv[*s as int] == slots@[*s as int].sv()); }
            let v = num_val_ref(&slots[*s]);
            push_val(stack, LispVal::Bool(order_exec(op, v, *imm)));
            StepOut::Next(pc + 1)
        },
        Op::JumpIfSlotLtImm(s, imm, t) | Op::JumpIfSlotLeImm(s, imm, t) | Op::JumpIfSlotGtImm(s, imm, t)
        | Op::JumpIfSlotGeImm(s, imm, t) | Op::JumpIfSlotEqImm(s, imm, t) => {
            if *s >= slots.len() {
                return StepOut::Halt(Err(String::from_str("bytecode: slot out of range")));
            }
            proof { assert(slv[*s as int] == slots@[*s as int].sv()); }
            let v = num_val_ref(&slots[*s]);
            if order_exec(op, v, *imm) { StepOut::Next(*t) } else { StepOut::Next(pc + 1) }
        },
        Op::RecurIncAccum(c, a, step, limit, exit) => {
            if lambda { return StepOut::Halt(Err(String::from_str("compiled lambda: unsupported op"))); }
            if *c >= slots.len() || *a >= slots.len() {
                return StepOut::Halt(Err(String::from_str("bytecode: slot out of range")));
            }
            proof { assert(slv[*c as int] == slots@[*c as int].sv()); assert(slv[*a as int] == slots@[*a as int].sv()); }
            let cv = num_val_ref(&slots[*c]);
            if cv >= *limit {
                return StepOut::Next(*exit);
            }
            let av = num_val_ref(&slots[*a]);
            let sum = match av.checked_add(cv) { Some(x) => x, None => { return StepOut::Halt(Err(String::from_str("integer overflow"))); } };
            let next_c = match cv.checked_add(*step) { Some(x) => x, None => { return StepOut::Halt(Err(String::from_str("integer overflow"))); } };
            slots.set(*a, LispVal::Num(sum));
            let ghost mid = vals_view(slots@);
            assert(mid =~= slv.update(*a as int, SVal::Num(sum as int)));
            slots.set(*c, LispVal::Num(next_c));
            assert(vals_view(slots@) =~= mid.update(*c as int, SVal::Num(next_c as int)));
            StepOut::Next(0)
        },
    }
}

// ---------------------------------------------------------------------------
// Compiled programs and their runners
// ---------------------------------------------------------------------------

/// A compiled `loop`.
pub struct CompiledLoop {
    /// Number of binding slots.
    pub num_slots: usize,
    /// Binding names, one per slot.
    pub slot_names: Vec<String>,
    /// Initial values of the binding slots.
    pub init_vals: Vec<LispVal>,
    /// The program.
    pub code: Vec<Op>,
    /// Where `recur` restarts.
    pub loop_start_pc: usize,
    /// Outer variables the body reads, with their values; they occupy the
    /// slots after the bindings.
    pub captured: Vec<(String, LispVal)>,
}

/// A compiled lambda body: parameter slots, then captured slots.
pub struct CompiledLambda {
    pub num_param_slots: usize,
    pub code: Vec<Op>,
    pub captured: Vec<(String, LispVal)>,
}

/// Values of captured variables, in slot order.
pub open spec fn captured_vals(c: Seq<(String, LispVal)>) -> Seq<SVal> {
    Seq::new(c.len(), |i: int| c[i].1.sv())
}

fn append_captured(slots: &mut Vec<LispVal>, c: &Vec<(String, LispVal)>)
    ensures
        vals_view(final(slots)@) == vals_view(old(slots)@) + captured_vals(c@),
{
    let ghost before = vals_view(slots@);
    let mut i: usize = 0;
    while i < c.len()
        invariant
            i <= c@.len(),
            vals_view(slots@) == before + captured_vals(c@).take(i as int),
        decreases c.len() - i,
    {
        let ghost mid = vals_view(slots@);
        push_val(slots, c[i].1.deep_clone());
        assert(captured_vals(c@).take(i + 1) =~= captured_vals(c@).take(i as int).push(c@[i as int].1.sv()));
        i += 1;
    }
    assert(captured_vals(c@).take(c@.len() as int) =~= captured_vals(c@));
}

/// The state a compiled loop starts in.
pub open spec fn loop_start(cl: &CompiledLoop) -> MState {
    MState { pc: 0, stack: Seq::empty(), slots: vals_view(cl.init_vals@) + captured_vals(cl.captured@) }
}

/// A compiled loop starts inside its program with one slot per binding and
/// captured variable, so by `lemma_machine_safe` none of its steps faults.
pub proof fn lemma_loop_start_ok(cl: CompiledLoop)
    requires
        code_ok(code_view(cl.code@), cl.num_slots + cl.captured@.len()),
        cl.init_vals@.len() == cl.num_slots,
    ensures
        state_ok(code_view(cl.code@), loop_start(&cl), cl.num_slots + cl.captured@.len()),
{
    assert(vals_view(cl.init_vals@).len() == cl.init_vals@.len());
}

/// Most instructions a compiled loop may execute.
pub const LOOP_STEP_LIMIT: u64 = 18446744073709551615;

/// Runs a compiled loop (see `run_loop`), one unit of gas per pass; the
/// outer environment is left as it is.
pub fn exec_compiled_loop(cl: &CompiledLoop, gas: &mut u64, outer_env: &mut Env) -> (r: Result<LispVal, String>)
    ensures
        (res_sv(r), *final(gas) as nat) == run_loop(code_view(cl.code@), loop_start(cl), *old(gas) as nat, LOOP_STEP_LIMIT as nat),
        final(outer_env)@ == old(outer_env)@,
{
    let mut slots = clone_vals(&cl.init_vals);
    append_captured(&mut slots, &cl.captured);
    let mut stack: Vec<LispVal> = Vec::new();
    let mut pc: usize = 0;
    let mut fuel: u64 = LOOP_STEP_LIMIT;
    let ghost cv = code_view(cl.code@);
    let ghost g0 = *gas;
    assert(vals_view(stack@) =~= Seq::<SVal>::empty());
    loop
        invariant
            cv == code_view(cl.code@),
            g0 == *old(gas),
            outer_env@ == old(outer_env)@,
            run_loop(cv, loop_start(cl), g0 as nat, LOOP_STEP_LIMIT as nat)
                == run_loop(cv, mstate(pc as int, stack@, slots@), *gas as nat, fuel as nat),
        decreases fuel,
    {
        if fuel == 0 {
            return Err(String::from_str("loop step limit exceeded"));
        }
        if pc == 0 {
            match check_gas(gas) {
                Ok(()) => {},
                Err(e) => { return Err(e); },
            }
        }
        match exec_step(&cl.code, pc, &mut stack, &mut slots, false) {
            StepOut::Next(p) => {
                pc = p;
            },
            StepOut::Halt(r) => {
                return r;
            },
        }
        fuel = fuel - 1;
    }
}

/// The state a compiled lambda starts in for the given arguments.
pub open spec fn lambda_start(cl: &CompiledLambda, args: Seq<SVal>) -> MState {
    MState {
        pc: 0,
        stack: Seq::empty(),
        slots: Seq::new(cl.num_param_slots as nat, |i: int| if i < args.len() { args[i] } else { SVal::Nil })
            + captured_vals(cl.captured@),
    }
}

/// Runs a compiled lambda on arguments (missing ones are `nil`), spending a
/// unit of gas every sixteen instructions (see `run_lambda`).
pub fn run_compiled_lambda(cl: &CompiledLambda, args: &Vec<LispVal>, gas: &mut u64) -> (r: Result<LispVal, String>)
    requires
        cl.code@.len() < u64::MAX,
    ensures
        (res_sv(r), *final(gas) as nat) == run_lambda(code_view(cl.code@), lambda_start(cl, vals_view(args@)), 0, *old(gas) as nat,
            (cl.code@.len() + 1) as nat),
{
    let ghost va = vals_view(args@);
    let mut slots: Vec<LispVal> = Vec::new();
    let mut i: usize = 0;
    while i < cl.num_param_slots
        invariant
            i <= cl.num_param_slots,
            va == vals_view(args@),
            *gas == *old(gas),
            vals_view(slots@) == Seq::new(i as nat, |k: int| if k < va.len() { va[k] } else { SVal::Nil }),
        decreases cl.num_param_slots - i,
    {
        let ghost before = vals_view(slots@);
        if i < args.len() {
            proof { assert(va[i as int] == args@[i as int].sv()); }
            push_val(&mut slots, args[i].deep_clone());
        } else {
            push_val(&mut slots, LispVal::Nil);
        }
        i += 1;
        assert(vals_view(slots@) =~= Seq::new(i as nat, |k: int| if k < va.len() { va[k] } else { SVal::Nil }));
    }
    append_captured(&mut slots, &cl.captured);
    let mut stack: Vec<LispVal> = Vec::new();
    assert(vals_view(stack@) =~= Seq::<SVal>::empty());
    assert(vals_view(slots@) =~= lambda_start(cl, va).slots);
    let mut pc: usize = 0;
    let mut count: u64 = 0;
    let mut fuel: u64 = cl.code.len() as u64 + 1;
    let ghost cv = code_view(cl.code@);
    let ghost g0 = *gas;
    loop
        invariant
            cv == code_view(cl.code@),
            cl.code@.len() < u64::MAX,
            va == vals_view(args@),
            g0 == *old(gas),
            count as nat + fuel as nat == cl.code@.len() + 1,
            run_lambda(cv, lambda_start(cl, va), 0, g0 as nat, (cl.code@.len() + 1) as nat)
                == run_lambda(cv, mstate(pc as int, stack@, slots@), count as nat, *gas as nat, fuel as nat),
        decreases fuel,
    {
        if fuel == 0 {
            return Err(String::from_str("compiled lambda: step limit exceeded"));
        }
        count = count + 1;
        if count % 16 == 0 {
            match check_gas(gas) {
                Ok(()) => {},
                Err(e) => { return Err(e); },
            }
        }
        match exec_step(&cl.code, pc, &mut stack, &mut slots, true) {
            StepOut::Next(p) => {
                pc = p;
            },
            StepOut::Halt(r) => {
                return r;
            },
        }
        fuel = fuel - 1;
    }
}

// ---------------------------------------------------------------------------
// The compiler
// ---------------------------------------------------------------------------

pub open spec fn arith_name(n: Seq<char>) -> bool {
    n == "+"@ || n == "-"@ || n == "*"@ || n == "/"@ || n == "%"@
}

pub open spec fn order_name(n: Seq<char>) -> bool {
    n == "="@ || n == "<"@ || n == "<="@ || n == ">"@ || n == ">="@
}

/// `n` instructions of the machine from `st`, or the halt that comes first.
pub open spec fn steps(code: Seq<OpV>, st: MState, n: nat, lambda: bool) -> MStep
    decreases n,
{
    if n == 0 {
        MStep::Next(st)
    } else {
        match machine_step(code, st, lambda) {
            MStep::Next(st2) => steps(code, st2, (n - 1) as nat, lambda),
            MStep::Halt(r) => MStep::Halt(r),
        }
    }
}

/// Running `a + b` instructions is running `a`, then `b` more.
pub proof fn lemma_steps_add(code: Seq<OpV>, st: MState, a: nat, b: nat, lambda: bool)
    ensures
        steps(code, st, a + b, lambda) == match steps(code, st, a, lambda) {
            MStep::Next(s) => steps(code, s, b, lambda),
            MStep::Halt(r) => MStep::Halt(r),
        },
    decreases a,
{
    if a > 0 {
        match machine_step(code, st, lambda) {
            MStep::Next(st2) => { lemma_steps_add(code, st2, (a - 1) as nat, b, lambda); },
            MStep::Halt(_) => {},
        }
    }
}

/// `a` is the start of `b`.
pub open spec fn code_prefix(a: Seq<OpV>, b: Seq<OpV>) -> bool {
    a.len() <= b.len() && b.take(a.len() as int) == a
}

proof fn lemma_code_prefix_trans(a: Seq<OpV>, b: Seq<OpV>, c: Seq<OpV>)
    requires
        code_prefix(a, b),
        code_prefix(b, c),
    ensures
        code_prefix(a, c),
{
    assert(c.take(a.len() as int) =~= c.take(b.len() as int).take(a.len() as int));
}

/// The position of the first `n` in `s`.
pub open spec fn first_index(s: Seq<Seq<char>>, n: Seq<char>) -> int
    decreases s.len(),
{
    if s.len() == 0 || s[0] == n { 0 } else { 1 + first_index(s.drop_first(), n) }
}

proof fn lemma_first_index(s: Seq<Seq<char>>, n: Seq<char>, i: int)
    requires
        0 <= i < s.len(),
        s[i] == n,
        forall|j: int| 0 <= j < i ==> s[j] != n,
    ensures
        first_index(s, n) == i,
    decreases i,
{
    if i > 0 {
        assert(s[0] != n);
        lemma_first_index(s.drop_first(), n, i - 1);
    }
}

/// The instruction of an arithmetic or comparison name.
pub open spec fn op_of_name(op: Seq<char>) -> OpV {
    if op == "+"@ { OpV::Add } else if op == "-"@ { OpV::Sub } else if op == "*"@ { OpV::Mul }
    else if op == "/"@ { OpV::Div } else if op == "%"@ { OpV::Mod } else if op == "="@ { OpV::Eq }
    else if op == "<"@ { OpV::Lt } else if op == "<="@ { OpV::Le } else if op == ">"@ { OpV::Gt } else { OpV::Ge }
}

/// What an arithmetic or comparison instruction makes of two values.
pub open spec fn apply_op(op: OpV, a: SVal, b: SVal) -> Result<SVal, Seq<char>> {
    match op {
        OpV::Add | OpV::Sub | OpV::Mul | OpV::Div | OpV::Mod => arith_op(op, num_of(a), num_of(b)),
        OpV::Eq => Ok(SVal::Bool(machine_eq(a, b))),
        _ => Ok(SVal::Bool(order_op(op, num_of(a), num_of(b)))),
    }
}

/// The instructions `apply_op` describes.
pub open spec fn binary_op(op: OpV) -> bool {
    op is Add || op is Sub || op is Mul || op is Div || op is Mod || op is Eq || op is Lt || op is Le
        || op is Gt || op is Ge
}

/// Straight-line expressions over the bindings `names`: literals, the
/// bindings, arithmetic and comparisons of two or more of them, and `not`.
pub open spec fn straight(e: SVal, names: Seq<Seq<char>>) -> bool
    decreases e, 0int,
{
    match e {
        SVal::Num(_) | SVal::Bool(_) | SVal::Str(_) | SVal::Nil => true,
        SVal::Sym(n) => names.contains(n),
        SVal::List(l) => match l[0] {
            SVal::Sym(op) => if arith_name(op) || order_name(op) {
                l.len() >= 3 && straight_from(l, 1, names)
            } else if op == "not"@ {
                l.len() >= 2 && straight_elem(l, 1, names)
            } else {
                builtin_call_name(op) && l.len() > 1 && straight_from(l, 1, names)
            },
            _ => false,
        },
        _ => false,
    }
}

/// A name the compiler turns into a `BuiltinCall`: a builtin of the
/// machine that is not one of the forms compiled otherwise.
pub open spec fn builtin_call_name(op: Seq<char>) -> bool {
    machine_builtin_name(op) && op != "if"@ && op != "recur"@ && op != "and"@ && op != "or"@ && op != "progn"@
        && op != "begin"@ && op != "cond"@
}

/// `straight` for the element of `l` at position `i`.
pub open spec fn straight_elem(l: Seq<SVal>, i: int, names: Seq<Seq<char>>) -> bool
    decreases l, 0int,
{
    0 <= i < l.len() && straight(l[i], names)
}

/// `straight` for every element of `l` from position `j` on.
pub open spec fn straight_from(l: Seq<SVal>, j: int, names: Seq<Seq<char>>) -> bool
    decreases l, l.len() - j,
{
    if j < 1 || j >= l.len() { true } else { straight(l[j], names) && straight_from(l, j + 1, names) }
}

/// The instruction `Sep::After` puts after each argument.
pub open spec fn sep_op(sep: Sep) -> Option<OpV> {
    match sep {
        Sep::After(op) => Some(op@),
        _ => None,
    }
}

proof fn lemma_straight_at(l: Seq<SVal>, j: int, i: int, names: Seq<Seq<char>>)
    requires
        1 <= j <= i < l.len(),
        straight_from(l, j, names),
    ensures
        straight(l[i], names),
        straight_from(l, i + 1, names),
    decreases i - j,
{
    if j < i {
        lemma_straight_at(l, j + 1, i, names);
    }
}

/// The value compiled code computes for a straight-line expression, with
/// the bindings' values in `slots`: a literal itself, a binding's slot,
/// and for an operation its arguments from left to right combined by the
/// operation's instruction (see `apply_op`); the first failure stops it.
pub open spec fn cval(e: SVal, names: Seq<Seq<char>>, slots: Seq<SVal>) -> Result<SVal, Seq<char>>
    decreases e, 0int,
{
    match e {
        SVal::Sym(n) => Ok(slots[first_index(names, n)]),
        SVal::List(l) => match l[0] {
            SVal::Sym(op) => if arith_name(op) || order_name(op) {
                cfold(op_of_name(op), l, 1, None, names, slots)
            } else if op == "not"@ {
                cnot(l, names, slots)
            } else {
                match cpush(l, 1, Seq::empty(), names, slots) {
                    Ok(vs) => machine_builtin(op, vs),
                    Err(m) => Err(m),
                }
            },
            _ => Ok(SVal::Nil),
        },
        _ => Ok(e),
    }
}

/// `(not e)`: whether `e`'s value equals `false`.
pub open spec fn cnot(l: Seq<SVal>, names: Seq<Seq<char>>, slots: Seq<SVal>) -> Result<SVal, Seq<char>>
    decreases l, 0int,
{
    if l.len() < 2 {
        Ok(SVal::Nil)
    } else {
        match cval(l[1], names, slots) {
            Ok(v) => Ok(SVal::Bool(machine_eq(v, SVal::Bool(false)))),
            Err(m) => Err(m),
        }
    }
}

/// The values of the arguments `l[j..]` after those in `acc`, or the
/// first failure.
pub open spec fn cpush(l: Seq<SVal>, j: int, acc: Seq<SVal>, names: Seq<Seq<char>>, slots: Seq<SVal>)
    -> Result<Seq<SVal>, Seq<char>>
    decreases l, l.len() - j,
{
    if j < 1 || j >= l.len() {
        Ok(acc)
    } else {
        match cval(l[j], names, slots) {
            Err(m) => Err(m),
            Ok(w) => cpush(l, j + 1, acc.push(w), names, slots),
        }
    }
}

/// The arguments `l[j..]` combined into `acc` (see `cval`).
pub open spec fn cfold(op: OpV, l: Seq<SVal>, j: int, acc: Option<SVal>, names: Seq<Seq<char>>, slots: Seq<SVal>)
    -> Result<SVal, Seq<char>>
    decreases l, l.len() - j,
{
    if j < 1 || j >= l.len() {
        match acc { Some(a) => Ok(a), None => Ok(SVal::Nil) }
    } else {
        match cval(l[j], names, slots) {
            Err(m) => Err(m),
            Ok(w) => match (match acc { Some(a) => apply_op(op, a, w), None => Ok(w) }) {
                Err(m) => Err(m),
                Ok(x) => cfold(op, l, j + 1, Some(x), names, slots),
            },
        }
    }
}

/// Where a run goes on after computing `r`: the value pushed and the
/// program counter at `to`, or the failure.
pub open spec fn val_step(st: MState, r: Result<SVal, Seq<char>>, to: int) -> MStep {
    match r {
        Ok(v) => MStep::Next(MState { pc: to, stack: st.stack.push(v), slots: st.slots }),
        Err(m) => MStep::Halt(Err(m)),
    }
}

/// The instructions `code[from..to]` compute `e`: in any program that
/// starts with `code`, running them from `from` with the bindings' values
/// in the slots pushes the value of `e` (see `cval`) and ends at `to`, or
/// stops with its failure.
pub open spec fn expr_code(code: Seq<OpV>, from: int, to: int, e: SVal, names: Seq<Seq<char>>) -> bool {
    &&& from <= to
    &&& forall|c: Seq<OpV>, st: MState, lam: bool| #![trigger steps(c, st, (to - from) as nat, lam)]
        code_prefix(code, c) && st.pc == from && names.len() <= st.slots.len()
            ==> steps(c, st, (to - from) as nat, lam) == val_step(st, cval(e, names, st.slots), to)
}

/// The instructions `code[from..to]` combine the arguments `l[j..]` into
/// the value on top of the stack with `op` (see `cfold`).
pub open spec fn fold_code(code: Seq<OpV>, from: int, to: int, l: Seq<SVal>, j: int, op: OpV, names: Seq<Seq<char>>) -> bool {
    &&& from <= to
    &&& forall|c: Seq<OpV>, st: MState, lam: bool| #![trigger steps(c, st, (to - from) as nat, lam)]
        code_prefix(code, c) && st.pc == from && names.len() <= st.slots.len() && st.stack.len() > 0
            ==> steps(c, st, (to - from) as nat, lam) == val_step(MState { pc: st.pc, stack: st.stack.drop_last(), slots: st.slots },
                cfold(op, l, j, Some(st.stack.last()), names, st.slots), to)
}

/// The one instruction compiled for a literal or a binding.
pub open spec fn leaf_op(e: SVal, names: Seq<Seq<char>>) -> OpV {
    match e {
        SVal::Num(n) => OpV::PushI64(n),
        SVal::Bool(b) => OpV::PushBool(b),
        SVal::Str(t) => OpV::PushStr(t),
        SVal::Sym(n) => OpV::LoadSlot(first_index(names, n)),
        _ => OpV::PushNil,
    }
}

proof fn lemma_first_index_lt(s: Seq<Seq<char>>, n: Seq<char>)
    requires
        s.contains(n),
    ensures
        0 <= first_index(s, n) < s.len(),
        s[first_index(s, n)] == n,
    decreases s.len(),
{
    if s[0] != n {
        let k = choose|k: int| 0 <= k < s.len() && s[k] == n;
        assert(s.drop_first()[k - 1] == n);
        lemma_first_index_lt(s.drop_first(), n);
    }
}

/// The instruction `leaf_op` computes its expression.
proof fn lemma_leaf_code(code: Seq<OpV>, from: int, e: SVal, names: Seq<Seq<char>>)
    requires
        straight(e, names),
        !(e is List),
        0 <= from < code.len(),
        code[from] == leaf_op(e, names),
    ensures
        expr_code(code, from, from + 1, e, names),
{
    if e is Sym {
        lemma_first_index_lt(names, e->Sym_0);
    }
    assert forall|c: Seq<OpV>, st: MState, lam: bool| #![trigger steps(c, st, 1nat, lam)]
        code_prefix(code, c) && st.pc == from && names.len() <= st.slots.len()
        implies steps(c, st, 1nat, lam) == val_step(st, cval(e, names, st.slots), from + 1) by {
        assert(c[from] == code.take(code.len() as int)[from]);
        assert(c[from] == code[from]);
        assert(steps(c, st, 1nat, lam) == match machine_step(c, st, lam) {
            MStep::Next(st2) => steps(c, st2, 0nat, lam),
            MStep::Halt(r) => MStep::Halt(r),
        });
    };
    assert((from + 1 - from) as nat == 1nat);
}

/// One more argument and its operation after a fold.
proof fn lemma_fold_snoc(code: Seq<OpV>, p0: int, p1: int, p2: int, l: Seq<SVal>, j: int, i: int, op: OpV,
    names: Seq<Seq<char>>)
    requires
        binary_op(op),
        0 <= p0,
        1 <= j <= i < l.len(),
        fold_code(code.take(p1), p0, p1, l.take(i), j, op, names),
        expr_code(code.take(p2), p1, p2, l[i], names),
        code_prefix(code.take(p1), code.take(p2)),
        p2 < code.len(),
        code[p2] == op,
    ensures
        fold_code(code, p0, p2 + 1, l.take(i + 1), j, op, names),
{
    assert(p0 <= p1 <= p2);
    assert(code_prefix(code.take(p2), code)) by {
        assert(code.take(code.take(p2).len() as int) =~= code.take(p2));
    }
    assert forall|c: Seq<OpV>, st: MState, lam: bool| #![trigger steps(c, st, (p2 + 1 - p0) as nat, lam)]
        code_prefix(code, c) && st.pc == p0 && names.len() <= st.slots.len() && st.stack.len() > 0
        implies steps(c, st, (p2 + 1 - p0) as nat, lam) == val_step(MState { pc: st.pc, stack: st.stack.drop_last(), slots: st.slots },
            cfold(op, l.take(i + 1), j, Some(st.stack.last()), names, st.slots), p2 + 1) by {
        lemma_code_prefix_trans(code.take(p1), code.take(p2), code);
        lemma_code_prefix_trans(code.take(p1), code, c);
        lemma_code_prefix_trans(code.take(p2), code, c);
        let std = MState { pc: st.pc, stack: st.stack.drop_last(), slots: st.slots };
        lemma_cfold_take(op, l, j, i, st.stack.last(), names, st.slots);
        lemma_steps_add(c, st, (p1 - p0) as nat, (p2 + 1 - p1) as nat, lam);
        assert(steps(c, st, (p1 - p0) as nat, lam) == val_step(std, cfold(op, l.take(i), j, Some(st.stack.last()), names, st.slots), p1));
        match cfold(op, l.take(i), j, Some(st.stack.last()), names, st.slots) {
            Err(m) => {},
            Ok(x) => {
                let s1 = MState { pc: p1, stack: std.stack.push(x), slots: st.slots };
                lemma_steps_add(c, s1, (p2 - p1) as nat, 1nat, lam);
                assert(steps(c, s1, (p2 - p1) as nat, lam) == val_step(s1, cval(l[i], names, st.slots), p2));
                match cval(l[i], names, st.slots) {
                    Err(m) => {},
                    Ok(w) => {
                        let s2 = MState { pc: p2, stack: s1.stack.push(w), slots: st.slots };
                        assert(c[p2] == code[p2]) by {
                            assert(c.take(code.len() as int)[p2] == c[p2]);
                        }
                        assert(s2.stack.drop_last() =~= s1.stack);
                        assert(s1.stack.drop_last() =~= std.stack);
                        assert(steps(c, s2, 1nat, lam) == match machine_step(c, s2, lam) {
                            MStep::Next(st3) => steps(c, st3, 0nat, lam),
                            MStep::Halt(r) => MStep::Halt(r),
                        });
                        assert(steps(c, s2, 1nat, lam) == val_step(std, apply_op(op, x, w), p2 + 1));
                    },
                }
            },
        }
    };
}

/// No instructions fold no arguments.
proof fn lemma_fold_empty(code: Seq<OpV>, p: int, l: Seq<SVal>, j: int, op: OpV, names: Seq<Seq<char>>)
    requires
        0 <= j <= l.len(),
    ensures
        fold_code(code, p, p, l.take(j), j, op, names),
{
    assert forall|c: Seq<OpV>, st: MState, lam: bool| #![trigger steps(c, st, (p - p) as nat, lam)]
        code_prefix(code, c) && st.pc == p && names.len() <= st.slots.len() && st.stack.len() > 0
        implies steps(c, st, (p - p) as nat, lam) == val_step(MState { pc: st.pc, stack: st.stack.drop_last(), slots: st.slots },
            cfold(op, l.take(j), j, Some(st.stack.last()), names, st.slots), p) by {
        assert(st.stack.drop_last().push(st.stack.last()) =~= st.stack);
    };
}

/// An operation's code: its first argument, then the fold of the rest.
proof fn lemma_op_code(code: Seq<OpV>, p0: int, p1: int, p2: int, l: Seq<SVal>, op: OpV, names: Seq<Seq<char>>)
    requires
        l.len() >= 3,
        l[0] matches SVal::Sym(n) && op_of_name(n) == op && (arith_name(n) || order_name(n)),
        0 <= p0,
        expr_code(code.take(p1), p0, p1, l[1], names),
        fold_code(code, p1, p2, l, 2, op, names),
        p1 <= code.len(),
    ensures
        expr_code(code, p0, p2, SVal::List(l), names),
{
    assert(code_prefix(code.take(p1), code)) by {
        assert(code.take(code.take(p1).len() as int) =~= code.take(p1));
    }
    assert forall|c: Seq<OpV>, st: MState, lam: bool| #![trigger steps(c, st, (p2 - p0) as nat, lam)]
        code_prefix(code, c) && st.pc == p0 && names.len() <= st.slots.len()
        implies steps(c, st, (p2 - p0) as nat, lam) == val_step(st, cval(SVal::List(l), names, st.slots), p2) by {
        lemma_code_prefix_trans(code.take(p1), code, c);
        lemma_steps_add(c, st, (p1 - p0) as nat, (p2 - p1) as nat, lam);
        assert(steps(c, st, (p1 - p0) as nat, lam) == val_step(st, cval(l[1], names, st.slots), p1));
        match cval(l[1], names, st.slots) {
            Err(m) => {},
            Ok(w) => {
                let s1 = MState { pc: p1, stack: st.stack.push(w), slots: st.slots };
                assert(s1.stack.drop_last() =~= st.stack);
                assert(steps(c, s1, (p2 - p1) as nat, lam) == val_step(MState { pc: s1.pc, stack: s1.stack.drop_last(), slots: st.slots },
                    cfold(op, l, 2, Some(w), names, st.slots), p2));
            },
        }
    };
}

/// `(not e)`'s code: `e`, then a comparison with `false`.
proof fn lemma_not_code(code: Seq<OpV>, p0: int, p1: int, l: Seq<SVal>, names: Seq<Seq<char>>)
    requires
        l.len() >= 2,
        l[0] matches SVal::Sym(n) && !(arith_name(n) || order_name(n)) && n == "not"@,
        0 <= p0,
        expr_code(code.take(p1), p0, p1, l[1], names),
        p1 + 2 <= code.len(),
        code[p1] == OpV::PushBool(false),
        code[p1 + 1] == OpV::Eq,
    ensures
        expr_code(code, p0, p1 + 2, SVal::List(l), names),
{
    assert(code_prefix(code.take(p1), code)) by {
        assert(code.take(code.take(p1).len() as int) =~= code.take(p1));
    }
    assert forall|c: Seq<OpV>, st: MState, lam: bool| #![trigger steps(c, st, (p1 + 2 - p0) as nat, lam)]
        code_prefix(code, c) && st.pc == p0 && names.len() <= st.slots.len()
        implies steps(c, st, (p1 + 2 - p0) as nat, lam) == val_step(st, cval(SVal::List(l), names, st.slots), p1 + 2) by {
        lemma_code_prefix_trans(code.take(p1), code, c);
        lemma_steps_add(c, st, (p1 - p0) as nat, 2nat, lam);
        assert(steps(c, st, (p1 - p0) as nat, lam) == val_step(st, cval(l[1], names, st.slots), p1));
        match cval(l[1], names, st.slots) {
            Err(m) => {},
            Ok(w) => {
                let s1 = MState { pc: p1, stack: st.stack.push(w), slots: st.slots };
                assert(c[p1] == code[p1] && c[p1 + 1] == code[p1 + 1]) by {
                    assert(c.take(code.len() as int)[p1] == c[p1]);
                    assert(c.take(code.len() as int)[p1 + 1] == c[p1 + 1]);
                }
                let s2 = MState { pc: p1 + 1, stack: s1.stack.push(SVal::Bool(false)), slots: st.slots };
                assert(s2.stack.drop_last() =~= s1.stack);
                assert(s1.stack.drop_last() =~= st.stack);
                assert(machine_step(c, s1, lam) == MStep::Next(s2));
                assert(steps(c, s1, 2nat, lam) == steps(c, s2, 1nat, lam));
                assert(steps(c, s2, 1nat, lam) == match machine_step(c, s2, lam) {
                    MStep::Next(st3) => steps(c, st3, 0nat, lam),
                    MStep::Halt(r) => MStep::Halt(r),
                });
            },
        }
    };
}

/// The fold of the arguments from `j` over a list cut after `i + 1`
/// continues the fold over the list cut after `i`.
proof fn lemma_cfold_take(op: OpV, l: Seq<SVal>, j: int, i: int, acc: SVal, names: Seq<Seq<char>>, slots: Seq<SVal>)
    requires
        1 <= j <= i < l.len(),
    ensures
        cfold(op, l.take(i + 1), j, Some(acc), names, slots) == match cfold(op, l.take(i), j, Some(acc), names, slots) {
            Err(m) => Err(m),
            Ok(x) => match cval(l[i], names, slots) {
                Err(m) => Err(m),
                Ok(w) => apply_op(op, x, w),
            },
        },
    decreases i - j,
{
    assert(l.take(i + 1)[j] == l[j]);
    assert(l.take(i + 1).len() == i + 1 && l.take(i).len() == i);
    if j == i {
        match cval(l[i], names, slots) {
            Ok(w) => match apply_op(op, acc, w) {
                Ok(x) => { assert(cfold(op, l.take(i + 1), i + 1, Some(x), names, slots) == Ok::<SVal, Seq<char>>(x)); },
                Err(_) => {},
            },
            Err(_) => {},
        }
    }
    if j < i {
        assert(l.take(i)[j] == l[j]);
        match cval(l[j], names, slots) {
            Ok(w) => match apply_op(op, acc, w) {
                Ok(x) => { lemma_cfold_take(op, l, j + 1, i, x, names, slots); },
                Err(_) => {},
            },
            Err(_) => {},
        }
    }
}

/// The instructions `code[from..to]` push the values of the arguments
/// `l[j..]` in order (see `cpush`).
pub open spec fn push_code(code: Seq<OpV>, from: int, to: int, l: Seq<SVal>, j: int, names: Seq<Seq<char>>) -> bool {
    &&& from <= to
    &&& forall|c: Seq<OpV>, st: MState, lam: bool| #![trigger steps(c, st, (to - from) as nat, lam)]
        code_prefix(code, c) && st.pc == from && names.len() <= st.slots.len()
            ==> steps(c, st, (to - from) as nat, lam) == match cpush(l, j, Seq::empty(), names, st.slots) {
                Ok(ws) => MStep::Next(MState { pc: to, stack: st.stack + ws, slots: st.slots }),
                Err(m) => MStep::Halt(Err(m)),
            }
}

proof fn lemma_cpush_take(l: Seq<SVal>, j: int, i: int, acc: Seq<SVal>, names: Seq<Seq<char>>, slots: Seq<SVal>)
    requires
        1 <= j <= i < l.len(),
    ensures
        cpush(l.take(i + 1), j, acc, names, slots) == match cpush(l.take(i), j, acc, names, slots) {
            Err(m) => Err(m),
            Ok(ws) => match cval(l[i], names, slots) {
                Err(m) => Err(m),
                Ok(w) => Ok(ws.push(w)),
            },
        },
    decreases i - j,
{
    assert(l.take(i + 1)[j] == l[j]);
    assert(l.take(i + 1).len() == i + 1 && l.take(i).len() == i);
    if j == i {
        match cval(l[i], names, slots) {
            Ok(w) => { assert(cpush(l.take(i + 1), i + 1, acc.push(w), names, slots) == Ok::<Seq<SVal>, Seq<char>>(acc.push(w))); },
            Err(_) => {},
        }
    }
    if j < i {
        assert(l.take(i)[j] == l[j]);
        match cval(l[j], names, slots) {
            Ok(w) => { lemma_cpush_take(l, j + 1, i, acc.push(w), names, slots); },
            Err(_) => {},
        }
    }
}

proof fn lemma_cpush_len(l: Seq<SVal>, j: int, acc: Seq<SVal>, names: Seq<Seq<char>>, slots: Seq<SVal>)
    requires
        1 <= j <= l.len(),
    ensures
        cpush(l, j, acc, names, slots) matches Ok(ws) ==> ws.len() == acc.len() + l.len() - j,
    decreases l.len() - j,
{
    if j < l.len() {
        match cval(l[j], names, slots) {
            Ok(w) => { lemma_cpush_len(l, j + 1, acc.push(w), names, slots); },
            Err(_) => {},
        }
    }
}

proof fn lemma_pop_n_app(base: Seq<SVal>, vs: Seq<SVal>)
    ensures
        pop_n(base + vs, vs.len()) == (vs, base),
    decreases vs.len(),
{
    if vs.len() > 0 {
        let s = base + vs;
        assert(s.drop_last() =~= base + vs.drop_last());
        lemma_pop_n_app(base, vs.drop_last());
        assert(vs.drop_last().push(vs.last()) =~= vs);
    } else {
        assert(base + vs =~= base);
    }
}

proof fn lemma_push_empty(code: Seq<OpV>, p: int, l: Seq<SVal>, j: int, names: Seq<Seq<char>>)
    requires
        0 <= j <= l.len(),
    ensures
        push_code(code, p, p, l.take(j), j, names),
{
    assert forall|c: Seq<OpV>, st: MState, lam: bool| #![trigger steps(c, st, (p - p) as nat, lam)]
        code_prefix(code, c) && st.pc == p && names.len() <= st.slots.len()
        implies steps(c, st, (p - p) as nat, lam) == match cpush(l.take(j), j, Seq::empty(), names, st.slots) {
            Ok(ws) => MStep::Next(MState { pc: p, stack: st.stack + ws, slots: st.slots }),
            Err(m) => MStep::Halt(Err(m)),
        } by {
        assert(st.stack + Seq::<SVal>::empty() =~= st.stack);
    };
}

/// One more argument pushed.
proof fn lemma_push_snoc(code: Seq<OpV>, p0: int, p1: int, p2: int, l: Seq<SVal>, j: int, i: int, names: Seq<Seq<char>>)
    requires
        0 <= p0,
        1 <= j <= i < l.len(),
        push_code(code.take(p1), p0, p1, l.take(i), j, names),
        expr_code(code, p1, p2, l[i], names),
        p1 <= code.len(),
    ensures
        push_code(code, p0, p2, l.take(i + 1), j, names),
{
    assert(code_prefix(code.take(p1), code)) by {
        assert(code.take(code.take(p1).len() as int) =~= code.take(p1));
    }
    assert forall|c: Seq<OpV>, st: MState, lam: bool| #![trigger steps(c, st, (p2 - p0) as nat, lam)]
        code_prefix(code, c) && st.pc == p0 && names.len() <= st.slots.len()
        implies steps(c, st, (p2 - p0) as nat, lam) == match cpush(l.take(i + 1), j, Seq::empty(), names, st.slots) {
            Ok(ws) => MStep::Next(MState { pc: p2, stack: st.stack + ws, slots: st.slots }),
            Err(m) => MStep::Halt(Err(m)),
        } by {
        lemma_code_prefix_trans(code.take(p1), code, c);
        lemma_cpush_take(l, j, i, Seq::empty(), names, st.slots);
        lemma_steps_add(c, st, (p1 - p0) as nat, (p2 - p1) as nat, lam);
        match cpush(l.take(i), j, Seq::empty(), names, st.slots) {
            Err(m) => {},
            Ok(ws) => {
                let s1 = MState { pc: p1, stack: st.stack + ws, slots: st.slots };
                assert(steps(c, s1, (p2 - p1) as nat, lam) == val_step(s1, cval(l[i], names, st.slots), p2));
                match cval(l[i], names, st.slots) {
                    Err(m) => {},
                    Ok(w) => { assert((st.stack + ws).push(w) =~= st.stack + ws.push(w)); },
                }
            },
        }
    };
}

/// A builtin call's code: its arguments pushed, then `BuiltinCall`.
proof fn lemma_builtin_code(code: Seq<OpV>, p0: int, p1: int, l: Seq<SVal>, names: Seq<Seq<char>>)
    requires
        l.len() > 1,
        l[0] matches SVal::Sym(n) && !(arith_name(n) || order_name(n)) && n != "not"@
            && code[p1] == OpV::BuiltinCall(n, l.len() - 1),
        0 <= p0,
        push_code(code.take(p1), p0, p1, l, 1, names),
        p1 < code.len(),
    ensures
        expr_code(code, p0, p1 + 1, SVal::List(l), names),
{
    assert(code_prefix(code.take(p1), code)) by {
        assert(code.take(code.take(p1).len() as int) =~= code.take(p1));
    }
    let n = l[0]->Sym_0;
    assert forall|c: Seq<OpV>, st: MState, lam: bool| #![trigger steps(c, st, (p1 + 1 - p0) as nat, lam)]
        code_prefix(code, c) && st.pc == p0 && names.len() <= st.slots.len()
        implies steps(c, st, (p1 + 1 - p0) as nat, lam) == val_step(st, cval(SVal::List(l), names, st.slots), p1 + 1) by {
        lemma_code_prefix_trans(code.take(p1), code, c);
        lemma_steps_add(c, st, (p1 - p0) as nat, 1nat, lam);
        lemma_cpush_len(l, 1, Seq::empty(), names, st.slots);
        match cpush(l, 1, Seq::empty(), names, st.slots) {
            Err(m) => {},
            Ok(ws) => {
                let s1 = MState { pc: p1, stack: st.stack + ws, slots: st.slots };
                assert(c[p1] == code[p1]) by {
                    assert(c.take(code.len() as int)[p1] == c[p1]);
                }
                lemma_pop_n_app(st.stack, ws);
                assert(ws.len() == l.len() - 1);
                assert(steps(c, s1, 1nat, lam) == match machine_step(c, s1, lam) {
                    MStep::Next(st3) => steps(c, st3, 0nat, lam),
                    MStep::Halt(r) => MStep::Halt(r),
                });
            },
        }
    };
}

/// A `cond` clause headed by `else`.
pub open spec fn is_else_clause(c: SVal) -> bool {
    c matches SVal::List(p) && p.len() >= 2 && p[0] == SVal::Sym("else"@)
}

/// The number of nodes of an expression: one for each atom and each list.
pub open spec fn nodes(e: SVal) -> nat
    decreases e, 0int,
{
    match e {
        SVal::List(l) => 1 + nodes_from(l, 0),
        _ => 1,
    }
}

/// The nodes of the elements of `l` from position `i` on.
pub open spec fn nodes_from(l: Seq<SVal>, i: int) -> nat
    decreases l, l.len() - i,
{
    if i < 0 || i >= l.len() {
        0
    } else {
        nodes(l[i]) + nodes_from(l, i + 1)
    }
}

/// Whether an expression compiles to bytecode, given the number of binding
/// slots, the names already known (bindings and pre-captured variables) and
/// the outer environment (which supplies the other variables).
pub open spec fn compiles(e: SVal, nslots: nat, known: Seq<Seq<char>>, env: Seq<(Seq<char>, SVal)>) -> bool
    decreases e,
{
    match e {
        SVal::Num(_) | SVal::Bool(_) | SVal::Str(_) | SVal::Nil => true,
        SVal::Sym(n) => known.contains(n) || lookup(env, n) is Some,
        SVal::List(l) => l.len() == 0 || match l[0] {
            SVal::Sym(op) => if arith_name(op) || order_name(op) {
                l.len() >= 3 && (forall|j: int| 1 <= j < l.len() ==> compiles(#[trigger] l[j], nslots, known, env))
            } else if op == "not"@ {
                l.len() >= 2 && compiles(l[1], nslots, known, env)
            } else if op == "if"@ {
                l.len() >= 3 && compiles(l[1], nslots, known, env) && compiles(l[2], nslots, known, env)
                    && (l.len() > 3 ==> compiles(l[3], nslots, known, env))
            } else if op == "recur"@ {
                l.len() - 1 == nslots && (forall|j: int| 1 <= j < l.len() ==> compiles(#[trigger] l[j], nslots, known, env))
            } else if op == "and"@ || op == "or"@ {
                l.len() >= 2 && (forall|j: int| 1 <= j < l.len() ==> compiles(#[trigger] l[j], nslots, known, env))
            } else if op == "progn"@ || op == "begin"@ {
                l.len() < 2 || (forall|j: int| 1 <= j < l.len() ==> compiles(#[trigger] l[j], nslots, known, env))
            } else if op == "cond"@ {
                l.len() >= 2 && (forall|i: int| 1 <= i < l.len()
                    && (forall|j: int| 1 <= j < i ==> !is_else_clause(#[trigger] l[j]))
                    ==> (#[trigger] l[i] matches SVal::List(p) && p.len() >= 2 && (if p[0] == SVal::Sym("else"@) {
                        compiles(p[1], nslots, known, env)
                    } else {
                        compiles(p[0], nslots, known, env) && compiles(p[1], nslots, known, env)
                    })))
            } else {
                l.len() > 1 && machine_builtin_name(op) && (forall|j: int| 1 <= j < l.len() ==> compiles(#[trigger] l[j], nslots, known, env))
            },
            _ => false,
        },
        _ => false,
    }
}

/// Glue code between the compiled arguments of a form.
pub enum Sep {
    /// Nothing.
    Plain,
    /// An instruction after each argument.
    After(Op),
    /// Short-circuit test after every argument but the last (`and` when true).
    Logic(bool),
    /// Discard every value but the last.
    Progn,
}

/// Compiler state: binding names, the program so far, and the captured
/// outer variables.
pub struct LoopCompiler {
    slot_map: Vec<String>,
    code: Vec<Op>,
    captured: Vec<(String, LispVal)>,
    /// How many of the captured variables were given up front (a lambda's
    /// closure) rather than read from the outer environment.
    fixed: usize,
}

/// Every captured variable holds its value in the outer environment.
pub open spec fn captured_ok(c: Seq<(String, LispVal)>, env: Seq<(Seq<char>, SVal)>) -> bool {
    forall|i: int| 0 <= i < c.len() ==> lookup(env, (#[trigger] c[i]).0@) == Some(c[i].1.sv())
}

impl LoopCompiler {
    pub closed spec fn names(&self) -> Seq<Seq<char>> {
        strings_view(self.slot_map@)
    }

    /// Names that resolve without the outer environment: bindings, then the
    /// captured variables given up front.
    pub closed spec fn known(&self) -> Seq<Seq<char>> {
        self.names() + Seq::new(self.fixed as nat, |i: int| self.captured@[i].0@)
    }

    /// The compiler's invariant: the captured variables read from `env`
    /// hold their values there, and every instruction so far jumps at most
    /// to the end of the program and names only slots in use.
    pub closed spec fn wf(&self, env: Seq<(Seq<char>, SVal)>) -> bool {
        &&& self.fixed <= self.captured@.len()
        &&& forall|i: int| self.fixed <= i < self.captured@.len()
            ==> lookup(env, (#[trigger] self.captured@[i]).0@) == Some(self.captured@[i].1.sv())
        &&& self.slot_map@.len() + self.captured@.len() < usize::MAX
        &&& ops_ok(code_view(self.code@), self.code@.len() as int, (self.slot_map@.len() + self.captured@.len()) as int)
    }

    /// Length of the program so far.
    pub closed spec fn code_len(&self) -> nat {
        self.code@.len()
    }

    /// Slots in use: bindings and captured variables.
    pub closed spec fn size(&self) -> nat {
        self.slot_map@.len() + self.captured@.len()
    }

    /// The program so far.
    pub closed spec fn code_ops(&self) -> Seq<OpV> {
        code_view(self.code@)
    }

    /// No slot index is left for another captured variable.
    pub open spec fn full(&self) -> bool {
        self.size() + 1 >= usize::MAX
    }

    /// Nothing compiled or captured yet.
    pub closed spec fn fresh(&self) -> bool {
        self.code@.len() == 0 && self.captured@.len() == 0 && self.fixed == 0
    }

    pub fn new(slot_names: Vec<String>) -> (r: LoopCompiler)
        ensures
            r.names() == strings_view(slot_names@),
            r.known() == strings_view(slot_names@),
            r.fresh(),
    {
        let r = LoopCompiler { slot_map: slot_names, code: Vec::new(), captured: Vec::new(), fixed: 0 };
        assert(r.known() =~= r.names());
        r
    }

    /// Appends an instruction whose targets and slots fit the program so far.
    fn emit(&mut self, op: Op, Ghost(env): Ghost<Seq<(Seq<char>, SVal)>>)
        requires
            old(self).wf(env),
            op_ok(op@, old(self).code@.len() as int, old(self).size() as int),
        ensures
            final(self).wf(env),
            final(self).names() == old(self).names(),
            final(self).known() == old(self).known(),
            final(self).size() == old(self).size(),
            final(self).code@ == old(self).code@.push(op),
            final(self).slot_map@ == old(self).slot_map@,
            final(self).captured@ == old(self).captured@,
            final(self).fixed == old(self).fixed,
    {
        let ghost before = code_view(self.code@);
        self.code.push(op);
        proof {
            assert(code_view(self.code@) =~= before.push(self.code@[self.code@.len() - 1]@));
            assert forall|i: int| 0 <= i < code_view(self.code@).len() implies
                op_ok(#[trigger] code_view(self.code@)[i], self.code@.len() as int, self.size() as int) by {
                if i < before.len() {
                    assert(op_ok(before[i], before.len() as int, self.size() as int));
                }
            };
            assert(self.known() =~= old(self).known());
        }
    }

    /// Replaces the instruction at `idx` (a jump placeholder) with `op`.
    fn patch(&mut self, idx: usize, op: Op, Ghost(env): Ghost<Seq<(Seq<char>, SVal)>>)
        requires
            old(self).wf(env),
            idx < old(self).code@.len(),
            op_ok(op@, old(self).code@.len() as int, old(self).size() as int),
        ensures
            final(self).wf(env),
            final(self).names() == old(self).names(),
            final(self).known() == old(self).known(),
            final(self).size() == old(self).size(),
            final(self).code@ == old(self).code@.update(idx as int, op),
            final(self).slot_map@ == old(self).slot_map@,
            final(self).captured@ == old(self).captured@,
            final(self).fixed == old(self).fixed,
    {
        let ghost before = code_view(self.code@);
        let ghost ov = op@;
        self.code.set(idx, op);
        proof {
            assert(code_view(self.code@) =~= before.update(idx as int, ov));
            assert forall|i: int| 0 <= i < code_view(self.code@).len() implies
                op_ok(#[trigger] code_view(self.code@)[i], self.code@.len() as int, self.size() as int) by {
                if i != idx {
                    assert(op_ok(before[i], before.len() as int, self.size() as int));
                }
            };
            assert(self.known() =~= old(self).known());
        }
    }

    /// Slot of a binding name, else of a captured variable.
    fn slot_of(&self, name: &str) -> (r: Option<usize>)
        requires
            self.slot_map@.len() + self.captured@.len() < usize::MAX,
        ensures
            self.names().contains(name@) ==> r is Some,
            self.names().contains(name@) ==> (r matches Some(k) && k == first_index(self.names(), name@)),
            r is Some ==> self.names().contains(name@) || exists|i: int| 0 <= i < self.captured@.len() && #[trigger] self.captured@[i].0@ == name@,
            r is None ==> forall|i: int| 0 <= i < self.captured@.len() ==> #[trigger] self.captured@[i].0@ != name@,
            r matches Some(k) ==> k < self.slot_map@.len() + self.captured@.len(),
    {
        let mut i: usize = 0;
        while i < self.slot_map.len()
            invariant
                i <= self.slot_map@.len(),
                forall|j: int| 0 <= j < i ==> self.slot_map@[j]@ != name@,
            decreases self.slot_map.len() - i,
        {
            if str_eq(self.slot_map[i].as_str(), name) {
                proof {
                    assert(self.names()[i as int] == name@);
                    assert forall|j: int| 0 <= j < i implies self.names()[j] != name@ by {
                        assert(self.names()[j] == self.slot_map@[j]@);
                    };
                    lemma_first_index(self.names(), name@, i as int);
                }
                return Some(i);
            }
            i += 1;
        }
        proof {
            assert forall|j: int| 0 <= j < self.names().len() implies self.names()[j] != name@ by {
                assert(self.names()[j] == self.slot_map@[j]@);
            };
        }
        let mut k: usize = 0;
        while k < self.captured.len()
            invariant
                k <= self.captured@.len(),
                self.slot_map@.len() + self.captured@.len() < usize::MAX,
                forall|i: int| 0 <= i < k ==> #[trigger] self.captured@[i].0@ != name@,
                forall|j: int| 0 <= j < self.names().len() ==> self.names()[j] != name@,
            decreases self.captured.len() - k,
        {
            if str_eq(self.captured[k].0.as_str(), name) {
                return Some(self.slot_map.len() + k);
            }
            k += 1;
        }
        None
    }

    /// Slot for a symbol: a binding, an already captured variable, or an
    /// outer variable captured now.
    fn slot_for(&mut self, name: &str, outer_env: &Env) -> (r: Option<usize>)
        requires
            old(self).wf(outer_env@),
        ensures
            final(self).wf(outer_env@),
            final(self).names() == old(self).names(),
            final(self).known() == old(self).known(),
            r is Some ==> (old(self).known().contains(name@) || lookup(outer_env@, name@) is Some),
            r is None ==> !(old(self).known().contains(name@) || lookup(outer_env@, name@) is Some) || final(self).full(),
            r matches Some(k) ==> k < final(self).size(),
            final(self).size() >= old(self).size(),
            final(self).size() <= old(self).size() + 1,
            final(self).code_len() == old(self).code_len(),
            final(self).code_len() >= old(self).code_len(),
            final(self).code@ == old(self).code@,
            old(self).names().contains(name@) ==> (r matches Some(k) && k == first_index(old(self).names(), name@)),
    {
        match self.slot_of(name) {
            Some(k) => {
                proof {
                    if !self.names().contains(name@) {
                        let i = choose|i: int| 0 <= i < self.captured@.len() && #[trigger] self.captured@[i].0@ == name@;
                        if i < self.fixed {
                            assert(self.known()[self.names().len() + i] == name@);
                        } else {
                            assert(lookup(outer_env@, self.captured@[i].0@) == Some(self.captured@[i].1.sv()));
                        }
                    } else {
                        let j = choose|j: int| 0 <= j < self.names().len() && self.names()[j] == name@;
                        assert(self.known()[j] == name@);
                    }
                }
                Some(k)
            },
            None => {
                proof {
                    assert forall|j: int| 0 <= j < self.known().len() implies self.known()[j] != name@ by {
                        if j >= self.names().len() {
                            assert(self.known()[j] == self.captured@[j - self.names().len()].0@);
                        }
                    };
                }
                match outer_env.get(name) {
                    Some(v) => {
                        if self.slot_map.len() >= usize::MAX - 1 - self.captured.len() {
                            return None;
                        }
                        let k = self.slot_map.len() + self.captured.len();
                        let ghost before = self.captured@;
                        let ghost known0 = self.known();
                        self.captured.push((chars_to_string(&str_to_chars(name)), v.deep_clone()));
                        proof {
                            assert forall|i: int| self.fixed <= i < self.captured@.len() implies
                                lookup(outer_env@, (#[trigger] self.captured@[i]).0@) == Some(self.captured@[i].1.sv()) by {
                                if i < before.len() {
                                    assert(self.captured@[i] == before[i]);
                                }
                            };
                            assert forall|i: int| 0 <= i < self.fixed implies #[trigger] self.captured@[i] == before[i] by {};
                            assert(self.known() =~= known0);
                        }
                        Some(k)
                    },
                    None => None,
                }
            },
        }
    }

    /// Compiles each of `list[from..]`, in order, with the glue code that
    /// `sep` asks for between (or after) the arguments.
    fn compile_args(&mut self, list: &Vec<LispVal>, from: usize, sep: Sep, outer_env: &Env) -> (r: bool)
        requires
            old(self).wf(outer_env@),
            from <= list@.len(),
            sep matches Sep::After(op) ==> op_ok(op@, 0, 0),
        ensures
            final(self).wf(outer_env@),
            final(self).names() == old(self).names(),
            final(self).known() == old(self).known(),
            final(self).size() >= old(self).size(),
            final(self).code_len() >= old(self).code_len(),
            r ==> (forall|j: int| from <= j < list@.len() ==> compiles(#[trigger] vals_view(list@)[j], old(self).names().len(), old(self).known(), outer_env@)),
            !r ==> !(forall|j: int| from <= j < list@.len() ==> compiles(#[trigger] vals_view(list@)[j], old(self).names().len(), old(self).known(), outer_env@))
                || final(self).full(),
            final(self).size() <= old(self).size() + nodes_from(vals_view(list@), from as int),
            final(self).code_len() <= old(self).code_len() + 4 * nodes_from(vals_view(list@), from as int),
            r && 1 <= from && straight_from(vals_view(list@), from as int, old(self).names()) ==> match sep_op(sep) {
                Some(op) => binary_op(op) ==> code_prefix(old(self).code_ops(), final(self).code_ops())
                    && fold_code(final(self).code_ops(), old(self).code_len() as int, final(self).code_len() as int,
                        vals_view(list@), from as int, op, old(self).names()),
                None => true,
            },
            r && 1 <= from && straight_from(vals_view(list@), from as int, old(self).names()) && sep is Plain
                ==> code_prefix(old(self).code_ops(), final(self).code_ops())
                    && push_code(final(self).code_ops(), old(self).code_len() as int, final(self).code_len() as int,
                        vals_view(list@), from as int, old(self).names()),
        decreases list, 0nat,
    {
        let ghost names = self.names();
        let ghost known = self.known();
        let ghost l = vals_view(list@);
        let ghost cond = 1 <= from && straight_from(l, from as int, names) && sep_op(sep) is Some && binary_op(sep_op(sep)->Some_0);
        let ghost pcond = 1 <= from && straight_from(l, from as int, names) && sep is Plain;
        let ghost p0 = self.code@.len() as int;
        let ghost code0 = self.code_ops();
        proof {
            assert(code0.take(code0.len() as int) =~= code0);
            if cond {
                lemma_fold_empty(code0, p0, l, from as int, sep_op(sep)->Some_0, names);
            }
            if pcond {
                lemma_push_empty(code0, p0, l, from as int, names);
            }
        }
        let mut patches: Vec<usize> = Vec::new();
        let mut i: usize = from;
        while i < list.len()
            invariant
                from <= i <= list@.len(),
                self.wf(outer_env@),
                self.names() == names,
                self.known() == known,
                names == old(self).names(),
                known == old(self).known(),
                self.size() >= old(self).size(),
                self.code_len() >= old(self).code_len(),
                forall|j: int| from <= j < i ==> compiles(#[trigger] vals_view(list@)[j], names.len(), known, outer_env@),
                forall|k: int| 0 <= k < patches@.len() ==> #[trigger] patches@[k] < self.code_len(),
                sep matches Sep::After(op) ==> op_ok(op@, 0, 0),
                self.size() + nodes_from(vals_view(list@), i as int) <= old(self).size() + nodes_from(vals_view(list@), from as int),
                self.code_len() + 4 * nodes_from(vals_view(list@), i as int) <= old(self).code_len() + 4 * nodes_from(vals_view(list@), from as int),
                l == vals_view(list@),
                p0 == old(self).code_len(),
                code0 == old(self).code_ops(),
                cond == (1 <= from && straight_from(l, from as int, names) && sep_op(sep) is Some && binary_op(sep_op(sep)->Some_0)),
                cond ==> patches@.len() == 0 && code_prefix(code0, self.code_ops())
                    && fold_code(self.code_ops(), p0, self.code_len() as int, l.take(i as int), from as int, sep_op(sep)->Some_0, names),
                pcond == (1 <= from && straight_from(l, from as int, names) && sep is Plain),
                pcond ==> patches@.len() == 0 && code_prefix(code0, self.code_ops())
                    && push_code(self.code_ops(), p0, self.code_len() as int, l.take(i as int), from as int, names),
            decreases list.len() - i,
        {
            let ghost cur = self.code_len() as int;
            let ghost cur_code = self.code_ops();
            proof {
                if cond || pcond {
                    lemma_straight_at(l, from as int, i as int, names);
                }
            }
            proof {
                assert(decreases_to!(list => list@[i as int]));
                assert(vals_view(list@)[i as int] == list@[i as int].sv());
            }
            if !self.compile_expr(&list[i], outer_env) {
                return false;
            }
            match &sep {
                Sep::Plain => {
                    proof {
                        if pcond {
                            let code1 = self.code_ops();
                            assert(code1.take(cur) =~= cur_code);
                            lemma_push_snoc(code1, p0, cur, self.code_len() as int, l, from as int, i as int, names);
                            lemma_code_prefix_trans(code0, cur_code, code1);
                        }
                    }
                },
                Sep::After(op) => {
                    proof { lemma_op_ok_mono(op@, 0, 0, self.code@.len() as int, self.size() as int); }
                    let ghost len1 = self.code_len() as int;
                    let ghost code1 = self.code_ops();
                    self.emit(op_clone(op), Ghost(outer_env@));
                    proof {
                        if cond {
                            let code2 = self.code_ops();
                            assert(code2 =~= code1.push(op@));
                            assert(code2.take(cur) =~= cur_code);
                            assert(code2.take(len1) =~= code1);
                            lemma_fold_snoc(code2, p0, cur, len1, l, from as int, i as int, op@, names);
                            lemma_code_prefix_trans(code0, cur_code, code1);
                            assert(code_prefix(code1, code2));
                            lemma_code_prefix_trans(code0, code1, code2);
                        }
                    }
                },
                Sep::Logic(is_and) => {
                    if i + 1 < list.len() {
                        self.emit(Op::Dup, Ghost(outer_env@));
                        let jidx = self.code.len();
                        self.emit(if *is_and { Op::JumpIfFalse(0) } else { Op::JumpIfTrue(0) }, Ghost(outer_env@));
                        self.emit(Op::Pop, Ghost(outer_env@));
                        patches.push(jidx);
                    }
                },
                Sep::Progn => {
                    if i + 1 < list.len() {
                        self.emit(Op::Pop, Ghost(outer_env@));
                    }
                },
            }
            i += 1;
        }
        let end_pc = self.code.len();
        proof {
            assert(l.take(l.len() as int) =~= l);
        }
        let mut k: usize = 0;
        while k < patches.len()
            invariant
                k <= patches@.len(),
                self.wf(outer_env@),
                self.names() == names,
                self.known() == known,
                self.size() >= old(self).size(),
                self.code_len() >= old(self).code_len(),
                forall|q: int| 0 <= q < patches@.len() ==> #[trigger] patches@[q] < self.code_len(),
                end_pc == self.code@.len(),
                cond ==> patches@.len() == 0 && code_prefix(code0, self.code_ops())
                    && fold_code(self.code_ops(), p0, self.code_len() as int, l, from as int, sep_op(sep)->Some_0, names),
                pcond ==> patches@.len() == 0 && code_prefix(code0, self.code_ops())
                    && push_code(self.code_ops(), p0, self.code_len() as int, l, from as int, names),
                pcond == (1 <= from && straight_from(l, from as int, names) && sep is Plain),
                p0 == old(self).code_len(),
                code0 == old(self).code_ops(),
                l == vals_view(list@),
                cond == (1 <= from && straight_from(l, from as int, names) && sep_op(sep) is Some && binary_op(sep_op(sep)->Some_0)),
                self.size() <= old(self).size() + nodes_from(vals_view(list@), from as int),
                self.code_len() <= old(self).code_len() + 4 * nodes_from(vals_view(list@), from as int),
            decreases patches.len() - k,
        {
            let idx = patches[k];
            let jump = match &sep { Sep::Logic(false) => Op::JumpIfTrue(end_pc), _ => Op::JumpIfFalse(end_pc) };
            self.patch(idx, jump, Ghost(outer_env@));
            k += 1;
        }
        true
    }

    /// After a leaf's one instruction is appended, the new program computes
    /// the leaf.
    proof fn lemma_leaf_emitted(&self, code0: Seq<OpV>, e: SVal)
        requires
            straight(e, self.names()),
            !(e is List),
            self.code_ops() == code0.push(leaf_op(e, self.names())),
        ensures
            code_prefix(code0, self.code_ops()),
            expr_code(self.code_ops(), code0.len() as int, self.code_len() as int, e, self.names()),
    {
        assert(self.code_ops().take(code0.len() as int) =~= code0);
        assert(self.code_ops().len() == self.code_len());
        lemma_leaf_code(self.code_ops(), code0.len() as int, e, self.names());
    }

    /// Compiles `expr`, appending its code; false when it is not supported
    /// (see `compiles`). For a straight-line expression (see `straight`)
    /// the appended instructions compute its value (see `expr_code`).
    #[verifier::rlimit(60)]
    pub fn compile_expr(&mut self, expr: &LispVal, outer_env: &Env) -> (r: bool)
        requires
            old(self).wf(outer_env@),
        ensures
            final(self).wf(outer_env@),
            final(self).names() == old(self).names(),
            final(self).known() == old(self).known(),
            final(self).size() >= old(self).size(),
            final(self).code_len() >= old(self).code_len(),
            r ==> compiles(expr.sv(), old(self).names().len(), old(self).known(), outer_env@),
            !r ==> !compiles(expr.sv(), old(self).names().len(), old(self).known(), outer_env@) || final(self).full(),
            final(self).size() <= old(self).size() + nodes(expr.sv()),
            final(self).code_len() + 3 <= old(self).code_len() + 4 * nodes(expr.sv()),
            r && straight(expr.sv(), old(self).names()) ==> code_prefix(old(self).code_ops(), final(self).code_ops())
                && expr_code(final(self).code_ops(), old(self).code_len() as int, final(self).code_len() as int, expr.sv(),
                    old(self).names()),
        decreases expr, 1nat,
    {
        let ghost names = self.names();
        let ghost known = self.known();
        let ghost p0 = self.code_len() as int;
        let ghost code0 = self.code_ops();
        proof {
            assert(code0.take(code0.len() as int) =~= code0);
        }
        proof {
            if !(expr.sv() is List) {
                assert(nodes(expr.sv()) == 1);
            }
        }
        match expr {
            LispVal::Num(n) => {
                self.emit(Op::PushI64(*n), Ghost(outer_env@));
                proof {
                    assert(self.code_ops() =~= code0.push(leaf_op(expr.sv(), names)));
                    self.lemma_leaf_emitted(code0, expr.sv());
                }
                true
            },
            LispVal::Bool(b) => {
                self.emit(Op::PushBool(*b), Ghost(outer_env@));
                proof {
                    assert(self.code_ops() =~= code0.push(leaf_op(expr.sv(), names)));
                    self.lemma_leaf_emitted(code0, expr.sv());
                }
                true
            },
            LispVal::Str(t) => {
                self.emit(Op::PushStr(t.clone()), Ghost(outer_env@));
                proof {
                    assert(self.code_ops() =~= code0.push(leaf_op(expr.sv(), names)));
                    self.lemma_leaf_emitted(code0, expr.sv());
                }
                true
            },
            LispVal::Nil => {
                self.emit(Op::PushNil, Ghost(outer_env@));
                proof {
                    assert(self.code_ops() =~= code0.push(leaf_op(expr.sv(), names)));
                    self.lemma_leaf_emitted(code0, expr.sv());
                }
                true
            },
            LispVal::Sym(name) => {
                match self.slot_for(name.as_str(), outer_env) {
                    Some(k) => {
                        self.emit(Op::LoadSlot(k), Ghost(outer_env@));
                        proof {
                            if straight(expr.sv(), names) {
                                assert(self.code_ops() =~= code0.push(leaf_op(expr.sv(), names)));
                                self.lemma_leaf_emitted(code0, expr.sv());
                            }
                        }
                        true
                    },
                    None => false,
                }
            },
            LispVal::List(list) => {
                let ghost l = vals_view(list@);
                proof {
                    assert(nodes(expr.sv()) == 1 + nodes_from(l, 0));
                    if l.len() >= 1 { assert(nodes_from(l, 0) == nodes(l[0]) + nodes_from(l, 1)); }
                    if l.len() >= 2 { assert(nodes_from(l, 1) == nodes(l[1]) + nodes_from(l, 2)); }
                    if l.len() >= 3 { assert(nodes_from(l, 2) == nodes(l[2]) + nodes_from(l, 3)); }
                    if l.len() >= 4 { assert(nodes_from(l, 3) == nodes(l[3]) + nodes_from(l, 4)); }
                }
                if list.len() == 0 {
                    self.emit(Op::PushNil, Ghost(outer_env@));
                    return true;
                }
                proof { assert(l[0] == list@[0].sv()); }
                let op = match &list[0] {
                    LispVal::Sym(op) => op,
                    _ => { return false; },
                };
                let o = op.as_str();
                if str_eq(o, "+") || str_eq(o, "-") || str_eq(o, "*") || str_eq(o, "/") || str_eq(o, "%")
                    || str_eq(o, "=") || str_eq(o, "<") || str_eq(o, "<=") || str_eq(o, ">") || str_eq(o, ">=") {
                    if list.len() < 3 {
                        return false;
                    }
                    proof { assert(decreases_to!(expr => list@[1])); assert(l[1] == list@[1].sv()); }
                    let ghost st_e = straight(expr.sv(), names);
                    proof {
                        if st_e {
                            lemma_straight_at(l, 1, 1, names);
                        }
                    }
                    if !self.compile_expr(&list[1], outer_env) {
                        return false;
                    }
                    let ghost p1 = self.code_len() as int;
                    let ghost code1 = self.code_ops();
                    let opcode = if str_eq(o, "+") { Op::Add } else if str_eq(o, "-") { Op::Sub } else if str_eq(o, "*") { Op::Mul }
                        else if str_eq(o, "/") { Op::Div } else if str_eq(o, "%") { Op::Mod } else if str_eq(o, "=") { Op::Eq }
                        else if str_eq(o, "<") { Op::Lt } else if str_eq(o, "<=") { Op::Le } else if str_eq(o, ">") { Op::Gt }
                        else { Op::Ge };
                    let ghost opv = opcode@;
                    proof {
                        assert(opv == op_of_name(o@));
                        assert(binary_op(opv));
                    }
                    let ok = self.compile_args(list, 2, Sep::After(opcode), outer_env);
                    proof {
                        if ok && st_e {
                            let code2 = self.code_ops();
                            assert(sep_op(Sep::After(opcode)) == Some(opv));
                            assert(code2.take(p1) =~= code1);
                            lemma_op_code(code2, p0, p1, self.code_len() as int, l, opv, names);
                            lemma_code_prefix_trans(code0, code1, code2);
                        }
                    }
                    proof {
                        if ok {
                            assert forall|j: int| 1 <= j < l.len() implies compiles(#[trigger] l[j], names.len(), known, outer_env@) by {
                                if j >= 2 { assert(l[j] == vals_view(list@)[j]); }
                            };
                        }
                    }
                    ok
                } else if str_eq(o, "not") {
                    if list.len() < 2 {
                        return false;
                    }
                    proof { assert(decreases_to!(expr => list@[1])); assert(l[1] == list@[1].sv()); }
                    if !self.compile_expr(&list[1], outer_env) {
                        return false;
                    }
                    let ghost p1 = self.code_len() as int;
                    let ghost code1 = self.code_ops();
                    self.emit(Op::PushBool(false), Ghost(outer_env@));
                    self.emit(Op::Eq, Ghost(outer_env@));
                    proof {
                        let code2 = self.code_ops();
                        assert(code2 =~= code1.push(OpV::PushBool(false)).push(OpV::Eq));
                        if straight(expr.sv(), names) {
                            assert(code2.take(p1) =~= code1);
                            lemma_not_code(code2, p0, p1, l, names);
                            assert(code_prefix(code1, code2)) by {
                                assert(code2.take(code1.len() as int) =~= code1);
                            }
                            lemma_code_prefix_trans(code0, code1, code2);
                        }
                    }
                    true
                } else if str_eq(o, "if") {
                    if list.len() < 3 {
                        return false;
                    }
                    proof {
                        assert(decreases_to!(expr => list@[1]));
                        assert(decreases_to!(expr => list@[2]));
                        assert(l[1] == list@[1].sv());
                        assert(l[2] == list@[2].sv());
                    }
                    if !self.compile_expr(&list[1], outer_env) {
                        return false;
                    }
                    let jf_idx = self.code.len();
                    self.emit(Op::JumpIfFalse(0), Ghost(outer_env@));
                    if !self.compile_expr(&list[2], outer_env) {
                        return false;
                    }
                    let jmp_idx = self.code.len();
                    self.emit(Op::Jump(0), Ghost(outer_env@));
                    let else_start = self.code.len();
                    self.patch(jf_idx, Op::JumpIfFalse(else_start), Ghost(outer_env@));
                    if list.len() > 3 {
                        proof { assert(decreases_to!(expr => list@[3])); assert(l[3] == list@[3].sv()); }
                        if !self.compile_expr(&list[3], outer_env) {
                            return false;
                        }
                    } else {
                        self.emit(Op::PushNil, Ghost(outer_env@));
                    }
                    let end = self.code.len();
                    self.patch(jmp_idx, Op::Jump(end), Ghost(outer_env@));
                    true
                } else if str_eq(o, "recur") {
                    let num_slots = self.slot_map.len();
                    if list.len() - 1 != num_slots {
                        return false;
                    }
                    if !self.compile_args(list, 1, Sep::Plain, outer_env) {
                        return false;
                    }
                    self.emit(Op::Recur(num_slots), Ghost(outer_env@));
                    true
                } else if str_eq(o, "and") || str_eq(o, "or") {
                    if list.len() < 2 {
                        return false;
                    }
                    let is_and = str_eq(o, "and");
                    self.compile_args(list, 1, Sep::Logic(is_and), outer_env)
                } else if str_eq(o, "progn") || str_eq(o, "begin") {
                    if list.len() < 2 {
                        self.emit(Op::PushNil, Ghost(outer_env@));
                        return true;
                    }
                    self.compile_args(list, 1, Sep::Progn, outer_env)
                } else if str_eq(o, "cond") {
                    if list.len() < 2 {
                        return false;
                    }
                    self.compile_cond(list, outer_env)
                } else {
                    if list.len() <= 1 || !is_machine_builtin(o) {
                        return false;
                    }
                    if !self.compile_args(list, 1, Sep::Plain, outer_env) {
                        return false;
                    }
                    let ghost p1 = self.code_len() as int;
                    let ghost code1 = self.code_ops();
                    self.emit(Op::BuiltinCall(op.clone(), list.len() - 1), Ghost(outer_env@));
                    proof {
                        let code2 = self.code_ops();
                        assert(code2 =~= code1.push(OpV::BuiltinCall(o@, l.len() - 1)));
                        if straight(expr.sv(), names) {
                            assert(code2.take(p1) =~= code1);
                            lemma_builtin_code(code2, p0, p1, l, names);
                            assert(code_prefix(code1, code2)) by {
                                assert(code2.take(code1.len() as int) =~= code1);
                            }
                            lemma_code_prefix_trans(code0, code1, code2);
                        }
                    }
                    true
                }
            },
            _ => false,
        }
    }

    /// Compiles the clauses of a `cond` form.
    fn compile_cond(&mut self, list: &Vec<LispVal>, outer_env: &Env) -> (r: bool)
        requires
            old(self).wf(outer_env@),
            list@.len() >= 2,
        ensures
            final(self).wf(outer_env@),
            final(self).names() == old(self).names(),
            final(self).known() == old(self).known(),
            final(self).size() >= old(self).size(),
            final(self).code_len() >= old(self).code_len(),
            (r || !final(self).full()) ==> r == (forall|i: int| 1 <= i < list@.len()
                && (forall|j: int| 1 <= j < i ==> !is_else_clause(#[trigger] vals_view(list@)[j]))
                ==> (#[trigger] vals_view(list@)[i] matches SVal::List(p) && p.len() >= 2 && (if p[0] == SVal::Sym("else"@) {
                    compiles(p[1], old(self).names().len(), old(self).known(), outer_env@)
                } else {
                    compiles(p[0], old(self).names().len(), old(self).known(), outer_env@) && compiles(p[1], old(self).names().len(), old(self).known(), outer_env@)
                }))),
            final(self).size() <= old(self).size() + nodes_from(vals_view(list@), 1),
            final(self).code_len() <= old(self).code_len() + 4 * nodes_from(vals_view(list@), 1),
        decreases list, 0nat,
    {
        let ghost names = self.names();
        let ghost known = self.known();
        let ghost l = vals_view(list@);
        let mut end_jumps: Vec<usize> = Vec::new();
        let mut i: usize = 1;
        let mut seen_else = false;
        while i < list.len() && !seen_else
            invariant
                1 <= i <= list@.len(),
                l == vals_view(list@),
                self.wf(outer_env@),
                self.names() == names,
                self.known() == known,
                self.size() >= old(self).size(),
                names == old(self).names(),
                known == old(self).known(),
                self.code_len() >= old(self).code_len(),
                forall|j: int| 1 <= j < i ==> (#[trigger] l[j] matches SVal::List(p) && p.len() >= 2 && (if p[0] == SVal::Sym("else"@) {
                    compiles(p[1], names.len(), known, outer_env@)
                } else {
                    compiles(p[0], names.len(), known, outer_env@) && compiles(p[1], names.len(), known, outer_env@)
                })),
                !seen_else ==> forall|j: int| 1 <= j < i ==> !is_else_clause(#[trigger] l[j]),
                seen_else ==> i >= 2 && is_else_clause(l[i - 1]) && forall|j: int| 1 <= j < i - 1 ==> !is_else_clause(#[trigger] l[j]),
                forall|k: int| 0 <= k < end_jumps@.len() ==> #[trigger] end_jumps@[k] < self.code@.len(),
                self.size() + nodes_from(l, i as int) <= old(self).size() + nodes_from(l, 1),
                self.code_len() + 4 * nodes_from(l, i as int) <= old(self).code_len() + 4 * nodes_from(l, 1),
            decreases list.len() - i,
        {
            proof { assert(l[i as int] == list@[i as int].sv()); }
            let clause = match &list[i] {
                LispVal::List(c) => c,
                _ => { return false; },
            };
            if clause.len() < 2 {
                assert(vals_view(clause@).len() < 2);
                return false;
            }
            let ghost p = vals_view(clause@);
            proof {
                assert(nodes_from(l, i as int) == nodes(l[i as int]) + nodes_from(l, i + 1));
                assert(nodes(l[i as int]) == 1 + nodes_from(p, 0));
                assert(nodes_from(p, 0) == nodes(p[0]) + nodes_from(p, 1));
                assert(nodes_from(p, 1) == nodes(p[1]) + nodes_from(p, 2));
                assert(p[0] == clause@[0].sv());
                assert(p[1] == clause@[1].sv());
                assert(decreases_to!(list => list@[i as int]));
                assert(decreases_to!(list@[i as int] => clause@[0]));
                assert(decreases_to!(list@[i as int] => clause@[1]));
                reveal_strlit("else");
            }
            let head_else = match &clause[0] { LispVal::Sym(h) => str_eq(h.as_str(), "else"), _ => false };
            if head_else {
                if !self.compile_expr(&clause[1], outer_env) {
                    return false;
                }
                seen_else = true;
            } else {
                if !self.compile_expr(&clause[0], outer_env) {
                    return false;
                }
                let jf_idx = self.code.len();
                self.emit(Op::JumpIfFalse(0), Ghost(outer_env@));
                if !self.compile_expr(&clause[1], outer_env) {
                    return false;
                }
                end_jumps.push(self.code.len());
                self.emit(Op::Jump(0), Ghost(outer_env@));
                let next = self.code.len();
                self.patch(jf_idx, Op::JumpIfFalse(next), Ghost(outer_env@));
            }
            i += 1;
        }
        let end_pc = self.code.len();
        proof {
            assert(l.take(l.len() as int) =~= l);
        }
        let mut k: usize = 0;
        while k < end_jumps.len()
            invariant
                k <= end_jumps@.len(),
                self.wf(outer_env@),
                self.names() == names,
                self.known() == known,
                self.size() >= old(self).size(),
                names == old(self).names(),
                known == old(self).known(),
                self.code_len() >= old(self).code_len(),
                forall|q: int| 0 <= q < end_jumps@.len() ==> #[trigger] end_jumps@[q] < self.code@.len(),
                end_pc == self.code@.len(),
                self.size() <= old(self).size() + nodes_from(l, 1),
                self.code_len() <= old(self).code_len() + 4 * nodes_from(l, 1),
            decreases end_jumps.len() - k,
        {
            let idx = end_jumps[k];
            self.patch(idx, Op::Jump(end_pc), Ghost(outer_env@));
            k += 1;
        }
        true
    }
}

// ---------------------------------------------------------------------------
// Peephole optimisation
// ---------------------------------------------------------------------------

/// The counter slot, exit bound and exit target of a fused compare-and-jump,
/// when the mega-fused loop op can take its place: only exits taken when the
/// counter is at or above a bound (`>=`, and `>` with the bound plus one),
/// since that is when the fused op exits.
pub open spec fn exit_test(op: OpV) -> Option<(int, int, int)> {
    match op {
        OpV::JumpIfSlotGeImm(s, imm, a) => Some((s, imm, a)),
        OpV::JumpIfSlotGtImm(s, imm, a) => if imm + 1 <= i64::MAX { Some((s, imm + 1, a)) } else { None },
        _ => None,
    }
}

/// The mega-fused op for the six instructions at `i`, if they form the
/// counting-sum loop with the counter in slot 0 and the sum in slot 1 (the
/// slots that `RecurDirect(2)` fills, in that order).
pub open spec fn mega_at(c: Seq<OpV>, i: int) -> Option<OpV> {
    if i + 5 < c.len() {
        match exit_test(c[i]) {
            Some((counter, limit, exit)) => match (c[i + 1], c[i + 2], c[i + 3], c[i + 4], c[i + 5]) {
                (OpV::SlotAddImm(cs, step), OpV::LoadSlot(accum), OpV::LoadSlot(as2), OpV::Add, OpV::RecurDirect(n)) =>
                    if n == 2 && counter == cs && counter == 0 && accum == 1 && as2 == counter {
                        Some(OpV::RecurIncAccum(counter, accum, step, limit, exit))
                    } else {
                        None
                    },
                _ => None,
            },
            None => None,
        }
    } else {
        None
    }
}

/// `LoadSlot; PushI64; op` fused into one slot/immediate op.
pub open spec fn slot_imm_at(c: Seq<OpV>, i: int) -> Option<OpV> {
    if i + 2 < c.len() {
        match (c[i], c[i + 1]) {
            (OpV::LoadSlot(s), OpV::PushI64(imm)) => match c[i + 2] {
                OpV::Add => Some(OpV::SlotAddImm(s, imm)),
                OpV::Sub => Some(OpV::SlotSubImm(s, imm)),
                OpV::Mul => Some(OpV::SlotMulImm(s, imm)),
                OpV::Div => Some(OpV::SlotDivImm(s, imm)),
                OpV::Eq => Some(OpV::SlotEqImm(s, imm)),
                OpV::Lt => Some(OpV::SlotLtImm(s, imm)),
                OpV::Le => Some(OpV::SlotLeImm(s, imm)),
                OpV::Gt => Some(OpV::SlotGtImm(s, imm)),
                OpV::Ge => Some(OpV::SlotGeImm(s, imm)),
                _ => None,
            },
            _ => None,
        }
    } else {
        None
    }
}

/// A slot comparison followed by `JumpIfTrue`, fused.
pub open spec fn jump_fuse_at(c: Seq<OpV>, i: int) -> Option<OpV> {
    if i + 1 < c.len() {
        match (c[i], c[i + 1]) {
            (OpV::SlotLtImm(s, imm), OpV::JumpIfTrue(a)) => Some(OpV::JumpIfSlotLtImm(s, imm, a)),
            (OpV::SlotLeImm(s, imm), OpV::JumpIfTrue(a)) => Some(OpV::JumpIfSlotLeImm(s, imm, a)),
            (OpV::SlotGtImm(s, imm), OpV::JumpIfTrue(a)) => Some(OpV::JumpIfSlotGtImm(s, imm, a)),
            (OpV::SlotGeImm(s, imm), OpV::JumpIfTrue(a)) => Some(OpV::JumpIfSlotGeImm(s, imm, a)),
            (OpV::SlotEqImm(s, imm), OpV::JumpIfTrue(a)) => Some(OpV::JumpIfSlotEqImm(s, imm, a)),
            _ => None,
        }
    } else {
        None
    }
}

/// Where an instruction may jump to (`recur` restarts at 0 and is left out).
pub open spec fn jump_target(op: OpV) -> Option<int> {
    match op {
        OpV::JumpIfTrue(a) | OpV::JumpIfFalse(a) | OpV::Jump(a) => Some(a),
        OpV::JumpIfSlotLtImm(_, _, a) | OpV::JumpIfSlotLeImm(_, _, a) | OpV::JumpIfSlotGtImm(_, _, a)
        | OpV::JumpIfSlotGeImm(_, _, a) | OpV::JumpIfSlotEqImm(_, _, a) => Some(a),
        OpV::RecurIncAccum(_, _, _, _, a) => Some(a),
        _ => None,
    }
}

/// No instruction of `c` jumps into the inside of the `k` instructions
/// from `i`, so they are only ever entered at `i` and can be fused.
pub open spec fn window_free(c: Seq<OpV>, i: int, k: int) -> bool {
    forall|j: int| 0 <= j < c.len() ==> (#[trigger] jump_target(c[j]) matches Some(t) ==> !(i < t < i + k))
}

/// How many instructions the rewrite at `i` consumes, and what it emits.
/// A window is fused only when nothing jumps into its inside.
pub open spec fn rewrite_at(c: Seq<OpV>, i: int) -> (int, OpV) {
    if mega_at(c, i) is Some && window_free(c, i, 6) {
        (6, mega_at(c, i)->Some_0)
    } else if slot_imm_at(c, i) is Some && window_free(c, i, 3) {
        (3, slot_imm_at(c, i)->Some_0)
    } else if jump_fuse_at(c, i) is Some && window_free(c, i, 2) {
        (2, jump_fuse_at(c, i)->Some_0)
    } else {
        match c[i] {
            OpV::Recur(n) => if n <= 4 { (1, OpV::RecurDirect(n)) } else { (1, c[i]) },
            _ => (1, c[i]),
        }
    }
}

/// Where `op` jumps to, if anywhere (see `jump_target`).
fn jump_target_exec(op: &Op) -> (r: Option<usize>)
    ensures
        match jump_target(op@) {
            Some(t) => r matches Some(x) && x == t,
            None => r is None,
        },
{
    match op {
        Op::JumpIfTrue(a) | Op::JumpIfFalse(a) | Op::Jump(a) => Some(*a),
        Op::JumpIfSlotLtImm(_, _, a) | Op::JumpIfSlotLeImm(_, _, a) | Op::JumpIfSlotGtImm(_, _, a)
        | Op::JumpIfSlotGeImm(_, _, a) | Op::JumpIfSlotEqImm(_, _, a) => Some(*a),
        Op::RecurIncAccum(_, _, _, _, a) => Some(*a),
        _ => None,
    }
}

/// Whether nothing jumps into the inside of `k` instructions from `i`.
fn window_free_exec(c: &Vec<Op>, i: usize, k: usize) -> (r: bool)
    ensures
        r == window_free(code_view(c@), i as int, k as int),
{
    let ghost cv = code_view(c@);
    let mut j: usize = 0;
    while j < c.len()
        invariant
            j <= c@.len(),
            cv == code_view(c@),
            forall|q: int| 0 <= q < j ==> (#[trigger] jump_target(cv[q]) matches Some(t) ==> !(i < t < i + k)),
        decreases c.len() - j,
    {
        proof { assert(cv[j as int] == c@[j as int]@); }
        match jump_target_exec(&c[j]) {
            Some(t) => {
                if i < t && (t - i) < k {
                    proof { assert(jump_target(cv[j as int]) == Some(t as int)); }
                    return false;
                }
            },
            None => {},
        }
        j += 1;
    }
    true
}

/// The rewritten program from position `i`, with the map from old to new
/// positions, continuing the given partial results.
pub open spec fn peep_from(c: Seq<OpV>, i: int, out: Seq<OpV>, map: Seq<int>) -> (Seq<OpV>, Seq<int>)
    decreases c.len() - i,
{
    if i < 0 || i >= c.len() {
        (out, map)
    } else {
        let (k, op) = rewrite_at(c, i);
        peep_from(c, i + k, out.push(op), map + Seq::new(k as nat, |j: int| out.len() as int))
    }
}

/// A jump target moved to its new position (targets past the old program
/// stay).
pub open spec fn remap_target(a: int, map: Seq<int>) -> int {
    if 0 <= a < map.len() { map[a] } else { a }
}

pub open spec fn remap_op(op: OpV, map: Seq<int>) -> OpV {
    match op {
        OpV::JumpIfFalse(a) => OpV::JumpIfFalse(remap_target(a, map)),
        OpV::JumpIfTrue(a) => OpV::JumpIfTrue(remap_target(a, map)),
        OpV::Jump(a) => OpV::Jump(remap_target(a, map)),
        OpV::JumpIfSlotLtImm(s, i, a) => OpV::JumpIfSlotLtImm(s, i, remap_target(a, map)),
        OpV::JumpIfSlotLeImm(s, i, a) => OpV::JumpIfSlotLeImm(s, i, remap_target(a, map)),
        OpV::JumpIfSlotGtImm(s, i, a) => OpV::JumpIfSlotGtImm(s, i, remap_target(a, map)),
        OpV::JumpIfSlotGeImm(s, i, a) => OpV::JumpIfSlotGeImm(s, i, remap_target(a, map)),
        OpV::JumpIfSlotEqImm(s, i, a) => OpV::JumpIfSlotEqImm(s, i, remap_target(a, map)),
        OpV::RecurIncAccum(c, x, st, l, a) => OpV::RecurIncAccum(c, x, st, l, remap_target(a, map)),
        _ => op,
    }
}

/// One peephole pass: fused rewrites left to right, then jump targets
/// moved to the new positions.
pub open spec fn peephole(c: Seq<OpV>) -> Seq<OpV> {
    let (out, map) = peep_from(c, 0, Seq::empty(), Seq::empty());
    Seq::new(out.len(), |i: int| remap_op(out[i], map))
}

/// What a rewrite emits names only slots and targets that the instructions
/// it replaces named.
proof fn lemma_rewrite_ok(c: Seq<OpV>, i: int, n: int)
    requires
        ops_ok(c, c.len() - 1, n),
        0 <= i < c.len(),
    ensures
        1 <= rewrite_at(c, i).0 <= c.len() - i,
        op_ok(rewrite_at(c, i).1, c.len() - 1, n),
        rewrite_at(c, i).0 > 1 ==> c[i + rewrite_at(c, i).0 - 1] != OpV::Return,
        c[i] == OpV::Return ==> rewrite_at(c, i) == (1int, OpV::Return),
{
    assert(op_ok(c[i], c.len() - 1, n));
    if i + 1 < c.len() { assert(op_ok(c[i + 1], c.len() - 1, n)); }
    if i + 2 < c.len() { assert(op_ok(c[i + 2], c.len() - 1, n)); }
}

/// The rewriting pass from position `i`: the position map covers the whole
/// program and points into the output, the output only grows, every
/// emitted instruction is `op_ok` in the old positions, and when the
/// program ends with `Return` so does the output.
proof fn lemma_peep_from(c: Seq<OpV>, i: int, out: Seq<OpV>, map: Seq<int>, n: int)
    requires
        ops_ok(c, c.len() - 1, n),
        0 <= i <= c.len(),
        map.len() == i,
        forall|j: int| 0 <= j < map.len() ==> 0 <= #[trigger] map[j] < out.len(),
        ops_ok(out, c.len() - 1, n),
    ensures
        peep_from(c, i, out, map).1.len() == c.len(),
        forall|j: int| 0 <= j < c.len() ==> 0 <= #[trigger] peep_from(c, i, out, map).1[j] < peep_from(c, i, out, map).0.len(),
        ops_ok(peep_from(c, i, out, map).0, c.len() - 1, n),
        peep_from(c, i, out, map).0.len() >= out.len(),
        i < c.len() ==> peep_from(c, i, out, map).0.len() > out.len(),
        c.len() > 0 && c.last() == OpV::Return && i < c.len() ==> peep_from(c, i, out, map).0.last() == OpV::Return,
    decreases c.len() - i,
{
    if i < c.len() {
        lemma_rewrite_ok(c, i, n);
        let (k, op) = rewrite_at(c, i);
        let out2 = out.push(op);
        let map2 = map + Seq::new(k as nat, |j: int| out.len() as int);
        assert forall|j: int| 0 <= j < map2.len() implies 0 <= #[trigger] map2[j] < out2.len() by {
            if j < map.len() {
                assert(map2[j] == map[j]);
            }
        };
        assert forall|j: int| 0 <= j < out2.len() implies op_ok(#[trigger] out2[j], c.len() - 1, n) by {
            if j < out.len() {
                assert(out2[j] == out[j]);
            }
        };
        lemma_peep_from(c, i + k, out2, map2, n);
        if c.len() > 0 && c.last() == OpV::Return && i + k >= c.len() {
            if k > 1 {
                assert(i + k - 1 == c.len() - 1);
            }
            assert(op == OpV::Return);
            assert(peep_from(c, i + k, out2, map2) == (out2, map2));
        }
    }
}

/// The peephole pass keeps a program well formed.
pub proof fn lemma_peephole_ok(c: Seq<OpV>, n: int)
    requires
        code_ok(c, n),
    ensures
        code_ok(peephole(c), n),
{
    lemma_peep_from(c, 0, Seq::empty(), Seq::empty(), n);
    let (out, map) = peep_from(c, 0, Seq::empty(), Seq::empty());
    let p = peephole(c);
    assert(p.len() == out.len());
    assert forall|i: int| 0 <= i < p.len() implies op_ok(#[trigger] p[i], p.len() - 1, n) by {
        assert(op_ok(out[i], c.len() - 1, n));
        assert(p[i] == remap_op(out[i], map));
    };
    assert(p.last() == remap_op(out.last(), map));
}

/// A program whose jumps land at most at its end is well formed once
/// `Return` is appended.
proof fn lemma_finish_ok(code: Seq<OpV>, n: int)
    requires
        ops_ok(code, code.len() as int, n),
    ensures
        code_ok(code.push(OpV::Return), n),
{
    let c2 = code.push(OpV::Return);
    assert forall|i: int| 0 <= i < c2.len() implies op_ok(#[trigger] c2[i], c2.len() - 1, n) by {
        if i < code.len() {
            assert(c2[i] == code[i]);
            assert(op_ok(code[i], code.len() as int, n));
        }
    };
}

/// Three peephole passes keep a program well formed.
proof fn lemma_peephole3_ok(c: Seq<OpV>, n: int)
    requires
        code_ok(c, n),
    ensures
        code_ok(peephole(peephole(peephole(c))), n),
{
    lemma_peephole_ok(c, n);
    lemma_peephole_ok(peephole(c), n);
    lemma_peephole_ok(peephole(peephole(c)), n);
}

/// A peephole pass never lengthens a program.
proof fn lemma_peep_len(c: Seq<OpV>, i: int, out: Seq<OpV>, map: Seq<int>)
    requires
        0 <= i <= c.len(),
    ensures
        peep_from(c, i, out, map).0.len() <= out.len() + c.len() - i,
    decreases c.len() - i,
{
    if i < c.len() {
        let (k, op) = rewrite_at(c, i);
        assert(1 <= k && i + k <= c.len());
        lemma_peep_len(c, i + k, out.push(op), map + Seq::new(k as nat, |j: int| out.len() as int));
    }
}

/// Three peephole passes never lengthen a program.
proof fn lemma_peephole3_len(c: Seq<OpV>)
    ensures
        peephole(peephole(peephole(c))).len() <= c.len(),
{
    lemma_peep_len(c, 0, Seq::empty(), Seq::empty());
    lemma_peep_len(peephole(c), 0, Seq::empty(), Seq::empty());
    lemma_peep_len(peephole(peephole(c)), 0, Seq::empty(), Seq::empty());
}

fn exit_test_exec(op: &Op) -> (r: Option<(usize, i64, usize)>)
    ensures
        match exit_test(op@) {
            Some((s, l, a)) => r matches Some((x, y, z)) && x == s && y == l && z == a,
            None => r is None,
        },
{
    match op {
        Op::JumpIfSlotGeImm(s, imm, a) => Some((*s, *imm, *a)),
        Op::JumpIfSlotGtImm(s, imm, a) => match imm.checked_add(1) { Some(l) => Some((*s, l, *a)), None => None },
        _ => None,
    }
}

fn mega_at_exec(c: &Vec<Op>, i: usize) -> (r: Option<Op>)
    requires
        i < c@.len(),
    ensures
        match mega_at(code_view(c@), i as int) {
            Some(op) => r matches Some(x) && x@ == op,
            None => r is None,
        },
{
    let ghost cv = code_view(c@);
    if c.len() - i <= 5 {
        return None;
    }
    proof {
        assert(cv[i as int] == c@[i as int]@);
        assert(cv[i + 1] == c@[i + 1]@);
        assert(cv[i + 2] == c@[i + 2]@);
        assert(cv[i + 3] == c@[i + 3]@);
        assert(cv[i + 4] == c@[i + 4]@);
        assert(cv[i + 5] == c@[i + 5]@);
    }
    match exit_test_exec(&c[i]) {
        Some((counter, limit, exit)) => match (&c[i + 1], &c[i + 2], &c[i + 3], &c[i + 4], &c[i + 5]) {
            (Op::SlotAddImm(cs, step), Op::LoadSlot(accum), Op::LoadSlot(as2), Op::Add, Op::RecurDirect(n)) => {
                if *n == 2 && counter == *cs && counter == 0 && *accum == 1 && *as2 == counter {
                    Some(Op::RecurIncAccum(counter, *accum, *step, limit, exit))
                } else {
                    None
                }
            },
            _ => None,
        },
        None => None,
    }
}

fn slot_imm_at_exec(c: &Vec<Op>, i: usize) -> (r: Option<Op>)
    requires
        i < c@.len(),
    ensures
        match slot_imm_at(code_view(c@), i as int) {
            Some(op) => r matches Some(x) && x@ == op,
            None => r is None,
        },
{
    let ghost cv = code_view(c@);
    if c.len() - i <= 2 {
        return None;
    }
    proof {
        assert(cv[i as int] == c@[i as int]@);
        assert(cv[i + 1] == c@[i + 1]@);
        assert(cv[i + 2] == c@[i + 2]@);
    }
    match (&c[i], &c[i + 1]) {
        (Op::LoadSlot(s), Op::PushI64(imm)) => match &c[i + 2] {
            Op::Add => Some(Op::SlotAddImm(*s, *imm)),
            Op::Sub => Some(Op::SlotSubImm(*s, *imm)),
            Op::Mul => Some(Op::SlotMulImm(*s, *imm)),
            Op::Div => Some(Op::SlotDivImm(*s, *imm)),
            Op::Eq => Some(Op::SlotEqImm(*s, *imm)),
            Op::Lt => Some(Op::SlotLtImm(*s, *imm)),
            Op::Le => Some(Op::SlotLeImm(*s, *imm)),
            Op::Gt => Some(Op::SlotGtImm(*s, *imm)),
            Op::Ge => Some(Op::SlotGeImm(*s, *imm)),
            _ => None,
        },
        _ => None,
    }
}

fn jump_fuse_at_exec(c: &Vec<Op>, i: usize) -> (r: Option<Op>)
    requires
        i < c@.len(),
    ensures
        match jump_fuse_at(code_view(c@), i as int) {
            Some(op) => r matches Some(x) && x@ == op,
            None => r is None,
        },
{
    let ghost cv = code_view(c@);
    if c.len() - i <= 1 {
        return None;
    }
    proof {
        assert(cv[i as int] == c@[i as int]@);
        assert(cv[i + 1] == c@[i + 1]@);
    }
    match (&c[i], &c[i + 1]) {
        (Op::SlotLtImm(s, imm), Op::JumpIfTrue(a)) => Some(Op::JumpIfSlotLtImm(*s, *imm, *a)),
        (Op::SlotLeImm(s, imm), Op::JumpIfTrue(a)) => Some(Op::JumpIfSlotLeImm(*s, *imm, *a)),
        (Op::SlotGtImm(s, imm), Op::JumpIfTrue(a)) => Some(Op::JumpIfSlotGtImm(*s, *imm, *a)),
        (Op::SlotGeImm(s, imm), Op::JumpIfTrue(a)) => Some(Op::JumpIfSlotGeImm(*s, *imm, *a)),
        (Op::SlotEqImm(s, imm), Op::JumpIfTrue(a)) => Some(Op::JumpIfSlotEqImm(*s, *imm, *a)),
        _ => None,
    }
}

/// Moves a jump target to its new position (see `remap_op`).
pub fn remap_jump_target(op: &mut Op, index_map: &Vec<usize>)
    ensures
        final(op)@ == remap_op(old(op)@, Seq::new(index_map@.len(), |i: int| index_map@[i] as int)),
{
    let ghost m = Seq::new(index_map@.len(), |i: int| index_map@[i] as int);
    let remap = |a: usize| -> (r: usize)
        ensures
            r as int == remap_target(a as int, m),
    {
        if a < index_map.len() { index_map[a] } else { a }
    };
    match op {
        Op::JumpIfFalse(a) => { *a = remap(*a); },
        Op::JumpIfTrue(a) => { *a = remap(*a); },
        Op::Jump(a) => { *a = remap(*a); },
        Op::JumpIfSlotLtImm(_, _, a) => { *a = remap(*a); },
        Op::JumpIfSlotLeImm(_, _, a) => { *a = remap(*a); },
        Op::JumpIfSlotGtImm(_, _, a) => { *a = remap(*a); },
        Op::JumpIfSlotGeImm(_, _, a) => { *a = remap(*a); },
        Op::JumpIfSlotEqImm(_, _, a) => { *a = remap(*a); },
        Op::RecurIncAccum(_, _, _, _, a) => { *a = remap(*a); },
        _ => {},
    }
}

/// One peephole pass (see `peephole`).
pub fn peephole_optimize(code: &mut Vec<Op>)
    ensures
        code_view(final(code)@) == peephole(code_view(old(code)@)),
{
    let ghost cv = code_view(code@);
    let mut new_code: Vec<Op> = Vec::new();
    let mut index_map: Vec<usize> = Vec::new();
    let mut i: usize = 0;
    assert(code_view(new_code@) =~= Seq::<OpV>::empty());
    assert(Seq::new(index_map@.len(), |k: int| index_map@[k] as int) =~= Seq::<int>::empty());
    while i < code.len()
        invariant
            i <= code@.len(),
            cv == code_view(code@),
            index_map@.len() == i,
            forall|k: int| 0 <= k < index_map@.len() ==> (#[trigger] index_map@[k]) < new_code@.len(),
            peep_from(cv, 0, Seq::empty(), Seq::empty())
                == peep_from(cv, i as int, code_view(new_code@), Seq::new(index_map@.len(), |k: int| index_map@[k] as int)),
        decreases code.len() - i,
    {
        let ghost out0 = code_view(new_code@);
        let ghost map0 = Seq::new(index_map@.len(), |k: int| index_map@[k] as int);
        let pos = new_code.len();
        let mega = mega_at_exec(code, i);
        let slot_imm = slot_imm_at_exec(code, i);
        let fused_jump = jump_fuse_at_exec(code, i);
        let (k, op): (usize, Op) = if mega.is_some() && window_free_exec(code, i, 6) {
            (6, mega.unwrap())
        } else if slot_imm.is_some() && window_free_exec(code, i, 3) {
            (3, slot_imm.unwrap())
        } else if fused_jump.is_some() && window_free_exec(code, i, 2) {
            (2, fused_jump.unwrap())
        } else {
            proof { assert(cv[i as int] == code@[i as int]@); }
            match &code[i] {
                Op::Recur(n) => if *n <= 4 { (1, Op::RecurDirect(*n)) } else { (1, op_clone(&code[i])) },
                _ => (1, op_clone(&code[i])),
            }
        };
        proof {
            assert(rewrite_at(cv, i as int) == (k as int, op@));
            assert(i + k <= code@.len());
        }
        let mut j: usize = 0;
        while j < k
            invariant
                j <= k,
                index_map@.len() == i + j,
                map0.len() == i,
                pos == new_code@.len(),
                forall|q: int| 0 <= q < i ==> (#[trigger] index_map@[q]) as int == map0[q],
                forall|q: int| i <= q < index_map@.len() ==> (#[trigger] index_map@[q]) == pos,
                forall|q: int| 0 <= q < i ==> (#[trigger] index_map@[q]) < new_code@.len(),
            decreases k - j,
        {
            index_map.push(pos);
            j += 1;
        }
        assert(Seq::new(index_map@.len(), |q: int| index_map@[q] as int)
            =~= map0 + Seq::new(k as nat, |q: int| pos as int));
        let ghost opv = op@;
        new_code.push(op);
        assert(code_view(new_code@) =~= out0.push(opv));
        assert(out0.len() == pos);
        i += k;
    }
    let ghost m = Seq::new(index_map@.len(), |k: int| index_map@[k] as int);
    let ghost nv = code_view(new_code@);
    let mut q: usize = 0;
    while q < new_code.len()
        invariant
            q <= new_code@.len(),
            nv.len() == new_code@.len(),
            m == Seq::new(index_map@.len(), |k: int| index_map@[k] as int),
            forall|t: int| 0 <= t < q ==> (#[trigger] new_code@[t])@ == remap_op(nv[t], m),
            forall|t: int| q <= t < new_code@.len() ==> (#[trigger] new_code@[t])@ == nv[t],
        decreases new_code.len() - q,
    {
        let mut op = new_code.remove(q);
        remap_jump_target(&mut op, &index_map);
        new_code.insert(q, op);
        q += 1;
    }
    proof {
        assert(peep_from(cv, i as int, nv, m) == (nv, m));
        assert(code_view(new_code@) =~= Seq::new(nv.len(), |t: int| remap_op(nv[t], m)));
    }
    *code = new_code;
}

// ---------------------------------------------------------------------------
// Whole loops and lambdas
// ---------------------------------------------------------------------------

/// The counting-sum loop `(if (>= i N) acc (recur (+ i step) (+ acc i)))`
/// over the two bindings `i` and `acc`, which compiles to the mega-fused op.
pub open spec fn mega_loop(parts: Seq<SVal>, names: Seq<Seq<char>>) -> bool {
    names.len() == 2 && parts.len() >= 4 && match (parts[1], parts[2], parts[3]) {
        (SVal::List(tp), SVal::Sym(then_name), SVal::List(ep)) =>
            tp.len() == 3 && tp[0] == SVal::Sym(">="@) && ep.len() == 3 && ep[0] == SVal::Sym("recur"@)
            && match (tp[1], tp[2], ep[1], ep[2]) {
                (SVal::Sym(counter), SVal::Num(_), SVal::List(a1), SVal::List(a2)) =>
                    a1.len() == 3 && a2.len() == 3 && a1[0] == SVal::Sym("+"@) && a2[0] == SVal::Sym("+"@)
                    && match (a1[1], a1[2], a2[1], a2[2]) {
                        (SVal::Sym(a1s), SVal::Num(_), SVal::Sym(a2s), SVal::Sym(a2r)) =>
                            a1s == counter && a2s == then_name && a2r == counter && counter != then_name
                            && names[0] == counter && names[1] == then_name,
                        _ => false,
                    },
                _ => false,
            },
        _ => false,
    }
}

/// A generic `(if test then else)` loop body: the else branch may be a
/// `recur` with one argument per binding.
pub open spec fn generic_loop(parts: Seq<SVal>, names: Seq<Seq<char>>, env: Seq<(Seq<char>, SVal)>) -> bool {
    compiles(parts[1], names.len(), names, env)
    && (parts.len() > 3 ==> match parts[3] {
        SVal::List(ep) => if ep.len() > 0 && ep[0] == SVal::Sym("recur"@) {
            ep.len() - 1 == names.len() && (forall|j: int| 1 <= j < ep.len() ==> compiles(#[trigger] ep[j], names.len(), names, env))
        } else {
            compiles(parts[3], names.len(), names, env)
        },
        _ => compiles(parts[3], names.len(), names, env),
    })
    && compiles(parts[2], names.len(), names, env)
}

/// Whether a loop body compiles to bytecode.
pub open spec fn body_compiles(body: SVal, names: Seq<Seq<char>>, env: Seq<(Seq<char>, SVal)>) -> bool {
    match body {
        SVal::List(parts) => if parts.len() > 0 && parts[0] == SVal::Sym("if"@) {
            parts.len() >= 3 && (mega_loop(parts, names) || generic_loop(parts, names, env))
        } else {
            compiles(body, names.len(), names, env)
        },
        _ => false,
    }
}

/// What a compiled loop holds: its bindings, their initial values, and
/// outer variables with their current values.
pub open spec fn loop_ok(cl: CompiledLoop, names: Seq<Seq<char>>, init: Seq<SVal>, env: Seq<(Seq<char>, SVal)>) -> bool {
    &&& cl.num_slots == names.len()
    &&& strings_view(cl.slot_names@) == names
    &&& vals_view(cl.init_vals@) == init
    &&& cl.loop_start_pc == 0
    &&& captured_ok(cl.captured@, env)
}

fn sym_is(v: &LispVal, name: &str) -> (r: bool)
    ensures
        r == (v.sv() == SVal::Sym(name@)),
{
    match v {
        LispVal::Sym(s) => str_eq(s.as_str(), name),
        _ => false,
    }
}

impl LoopCompiler {
    /// The mega-fused program for the counting-sum loop, when the body is one.
    fn try_mega(&self, parts: &Vec<LispVal>) -> (r: Option<Vec<Op>>)
        requires
            parts@.len() >= 3,
        ensures
            r is Some <==> mega_loop(vals_view(parts@), self.names()),
            r matches Some(code) ==> code_ok(code_view(code@), self.slot_map@.len() as int),
    {
        let ghost pv = vals_view(parts@);
        if self.slot_map.len() != 2 || parts.len() < 4 {
            return None;
        }
        proof {
            assert(pv[1] == parts@[1].sv());
            assert(pv[2] == parts@[2].sv());
            assert(pv[3] == parts@[3].sv());
            reveal_strlit(">=");
            reveal_strlit("recur");
            reveal_strlit("+");
        }
        let (tp, then_name, ep) = match (&parts[1], &parts[2], &parts[3]) {
            (LispVal::List(tp), LispVal::Sym(t), LispVal::List(ep)) => (tp, t, ep),
            _ => { return None; },
        };
        if tp.len() != 3 || ep.len() != 3 {
            return None;
        }
        let ghost tv = vals_view(tp@);
        let ghost ev = vals_view(ep@);
        proof {
            assert(tv[0] == tp@[0].sv() && tv[1] == tp@[1].sv() && tv[2] == tp@[2].sv());
            assert(ev[0] == ep@[0].sv() && ev[1] == ep@[1].sv() && ev[2] == ep@[2].sv());
        }
        if !sym_is(&tp[0], ">=") || !sym_is(&ep[0], "recur") {
            return None;
        }
        let (counter, limit, a1, a2) = match (&tp[1], &tp[2], &ep[1], &ep[2]) {
            (LispVal::Sym(c), LispVal::Num(l), LispVal::List(a1), LispVal::List(a2)) => (c, *l, a1, a2),
            _ => { return None; },
        };
        if a1.len() != 3 || a2.len() != 3 {
            return None;
        }
        let ghost v1 = vals_view(a1@);
        let ghost v2 = vals_view(a2@);
        proof {
            assert(v1[0] == a1@[0].sv() && v1[1] == a1@[1].sv() && v1[2] == a1@[2].sv());
            assert(v2[0] == a2@[0].sv() && v2[1] == a2@[1].sv() && v2[2] == a2@[2].sv());
        }
        if !sym_is(&a1[0], "+") || !sym_is(&a2[0], "+") {
            return None;
        }
        let (a1s, step, a2s, a2r) = match (&a1[1], &a1[2], &a2[1], &a2[2]) {
            (LispVal::Sym(x), LispVal::Num(st), LispVal::Sym(y), LispVal::Sym(z)) => (x, *st, y, z),
            _ => { return None; },
        };
        if !str_eq(a1s.as_str(), counter.as_str()) || !str_eq(a2s.as_str(), then_name.as_str())
            || !str_eq(a2r.as_str(), counter.as_str()) || str_eq(counter.as_str(), then_name.as_str()) {
            return None;
        }
        proof {
            assert(self.names()[0] == self.slot_map@[0]@);
            assert(self.names()[1] == self.slot_map@[1]@);
        }
        if !str_eq(self.slot_map[0].as_str(), counter.as_str()) || !str_eq(self.slot_map[1].as_str(), then_name.as_str()) {
            return None;
        }
        let cs: usize = 0;
        let acc: usize = 1;
        let mut code: Vec<Op> = Vec::new();
        code.push(Op::JumpIfSlotGeImm(cs, limit, 2));
        code.push(Op::RecurIncAccum(cs, acc, step, limit, 2));
        code.push(Op::LoadSlot(acc));
        code.push(Op::Return);
        proof {
            let cv = code_view(code@);
            assert(cv.len() == 4);
            assert(cv[0] == OpV::JumpIfSlotGeImm(cs as int, limit as int, 2));
            assert(cv[1] == OpV::RecurIncAccum(cs as int, acc as int, step as int, limit as int, 2));
            assert(cv[2] == OpV::LoadSlot(acc as int));
            assert(cv[3] == OpV::Return);
        }
        Some(code)
    }

    /// Compiles a loop body (see `body_compiles`).
    fn compile_body(self, init_vals: Vec<LispVal>, body: &LispVal, outer_env: &Env) -> (r: Option<CompiledLoop>)
        requires
            self.wf(outer_env@),
            self.fresh(),
        ensures
            r is Some ==> body_compiles(body.sv(), self.names(), outer_env@),
            r matches Some(cl) ==> loop_ok(cl, self.names(), vals_view(init_vals@), outer_env@),
            r matches Some(cl) ==> code_ok(code_view(cl.code@), cl.num_slots + cl.captured@.len()),
            !body_compiles(body.sv(), self.names(), outer_env@) ==> r is None,
            body_compiles(body.sv(), self.names(), outer_env@) && self.names().len() + nodes(body.sv()) + 1 < usize::MAX
                ==> r is Some,
    {
        let ghost names = self.names();
        let ghost s0 = self.size();
        proof { assert(self.known() =~= self.names()); }
        let mut me = self;
        let parts = match body {
            LispVal::List(parts) => parts,
            _ => { return None; },
        };
        let ghost pv = vals_view(parts@);
        proof {
            reveal_strlit("if");
            reveal_strlit("recur");
            assert(nodes(body.sv()) == 1 + nodes_from(pv, 0));
            if pv.len() >= 1 { assert(nodes_from(pv, 0) == nodes(pv[0]) + nodes_from(pv, 1)); }
            if pv.len() >= 2 { assert(nodes_from(pv, 1) == nodes(pv[1]) + nodes_from(pv, 2)); }
            if pv.len() >= 3 { assert(nodes_from(pv, 2) == nodes(pv[2]) + nodes_from(pv, 3)); }
            if pv.len() >= 4 { assert(nodes_from(pv, 3) == nodes(pv[3]) + nodes_from(pv, 4)); }
        }
        if parts.len() > 0 && sym_is(&parts[0], "if") {
            proof { assert(pv[0] == parts@[0].sv()); }
            if parts.len() < 3 {
                return None;
            }
            proof {
                assert(pv[1] == parts@[1].sv());
                assert(pv[2] == parts@[2].sv());
            }
            match me.try_mega(parts) {
                Some(code) => {
                    let num_slots = me.slot_map.len();
                    return Some(CompiledLoop {
                        num_slots,
                        slot_names: me.slot_map,
                        init_vals,
                        code,
                        loop_start_pc: 0,
                        captured: me.captured,
                    });
                },
                None => {},
            }
            if !me.compile_expr(&parts[1], outer_env) {
                return None;
            }
            let jt_idx = me.code.len();
            me.emit(Op::JumpIfTrue(0), Ghost(outer_env@));
            if parts.len() > 3 {
                proof { assert(pv[3] == parts@[3].sv()); }
                let mut is_recur = false;
                if let LispVal::List(ep) = &parts[3] {
                    proof {
                        let epv = vals_view(ep@);
                        assert(pv[3] == SVal::List(epv));
                        assert(nodes(pv[3]) == 1 + nodes_from(epv, 0));
                        if epv.len() >= 1 { assert(nodes_from(epv, 0) == nodes(epv[0]) + nodes_from(epv, 1)); }
                    }
                    if ep.len() > 0 && sym_is(&ep[0], "recur") {
                        proof { assert(vals_view(ep@)[0] == ep@[0].sv()); }
                        is_recur = true;
                        if ep.len() - 1 != me.slot_map.len() {
                            return None;
                        }
                        if !me.compile_args(ep, 1, Sep::Plain, outer_env) {
                            return None;
                        }
                        let n = me.slot_map.len();
                        me.emit(Op::Recur(n), Ghost(outer_env@));
                    } else {
                        proof { if ep.len() > 0 { assert(vals_view(ep@)[0] == ep@[0].sv()); } }
                    }
                }
                if !is_recur {
                    if !me.compile_expr(&parts[3], outer_env) {
                        return None;
                    }
                    me.emit(Op::Return, Ghost(outer_env@));
                }
            } else {
                me.emit(Op::PushNil, Ghost(outer_env@));
                me.emit(Op::Return, Ghost(outer_env@));
            }
            let then_start = me.code.len();
            me.patch(jt_idx, Op::JumpIfTrue(then_start), Ghost(outer_env@));
            if !me.compile_expr(&parts[2], outer_env) {
                return None;
            }
            let ghost before = code_view(me.code@);
            proof { lemma_finish_ok(before, me.size() as int); }
            me.emit(Op::Return, Ghost(outer_env@));
            let mut code = me.code;
            proof { assert(code_view(code@) =~= before.push(OpV::Return)); lemma_peephole3_ok(code_view(code@), me.size() as int); }
            peephole_optimize(&mut code);
            peephole_optimize(&mut code);
            peephole_optimize(&mut code);
            let num_slots = me.slot_map.len();
            return Some(CompiledLoop { num_slots, slot_names: me.slot_map, init_vals, code, loop_start_pc: 0, captured: me.captured });
        }
        proof { if parts.len() > 0 { assert(pv[0] == parts@[0].sv()); } }
        if !me.compile_expr(body, outer_env) {
            return None;
        }
        let ghost before = code_view(me.code@);
        proof { lemma_finish_ok(before, me.size() as int); }
        me.emit(Op::Return, Ghost(outer_env@));
        let mut code = me.code;
        proof { assert(code_view(code@) =~= before.push(OpV::Return)); lemma_peephole3_ok(code_view(code@), me.size() as int); }
        peephole_optimize(&mut code);
        peephole_optimize(&mut code);
        peephole_optimize(&mut code);
        let num_slots = me.slot_map.len();
        Some(CompiledLoop { num_slots, slot_names: me.slot_map, init_vals, code, loop_start_pc: 0, captured: me.captured })
    }
}

/// Compiles a `loop` with the given bindings and body, when the body is in
/// the compilable subset (see `body_compiles`).
pub fn try_compile_loop(binding_names: &Vec<String>, binding_vals: Vec<LispVal>, body: &LispVal, outer_env: &Env) -> (r: Option<CompiledLoop>)
    ensures
        r is Some ==> body_compiles(body.sv(), strings_view(binding_names@), outer_env@),
        r matches Some(cl) ==> loop_ok(cl, strings_view(binding_names@), vals_view(binding_vals@), outer_env@),
        r matches Some(cl) ==> code_ok(code_view(cl.code@), cl.num_slots + cl.captured@.len())
            && cl.init_vals@.len() == binding_vals@.len(),
        !body_compiles(body.sv(), strings_view(binding_names@), outer_env@) ==> r is None,
        body_compiles(body.sv(), strings_view(binding_names@), outer_env@)
            && binding_names@.len() + nodes(body.sv()) + 1 < usize::MAX ==> r is Some,
{
    let names = crate::types::clone_strings(binding_names);
    proof { assert(nodes(body.sv()) >= 1); }
    if names.len() >= usize::MAX - 1 {
        return None;
    }
    let compiler = LoopCompiler::new(names);
    proof { assert(compiler.wf(outer_env@)); }
    let ghost bv = binding_vals@;
    let r = compiler.compile_body(binding_vals, body, outer_env);
    proof {
        match &r {
            Some(cl) => {
                assert(vals_view(cl.init_vals@).len() == cl.init_vals@.len());
                assert(vals_view(bv).len() == bv.len());
            },
            None => {},
        }
    }
    r
}

/// Names bound by a closure, in order.
pub open spec fn closure_names(c: Seq<(String, LispVal)>) -> Seq<Seq<char>> {
    Seq::new(c.len(), |i: int| c[i].0@)
}

/// Compiles a lambda body over the given parameters and closure bindings,
/// when it is in the compilable subset (see `compiles`); the closure
/// bindings take the slots after the parameters.
pub fn try_compile_lambda(param_names: &Vec<String>, body: &LispVal, closed_env: &Vec<(String, LispVal)>, outer_env: &Env) -> (r: Option<CompiledLambda>)
    ensures
        r is Some ==> compiles(body.sv(), param_names@.len(), strings_view(param_names@) + closure_names(closed_env@), outer_env@),
        r matches Some(cl) ==> cl.num_param_slots == param_names@.len() && cl.code@.len() < u64::MAX
            && code_ok(code_view(cl.code@), cl.num_param_slots + cl.captured@.len()),
        compiles(body.sv(), param_names@.len(), strings_view(param_names@) + closure_names(closed_env@), outer_env@)
            && param_names@.len() + closed_env@.len() + nodes(body.sv()) + 1 < usize::MAX
            && 4 * nodes(body.sv()) < u64::MAX ==> r is Some,
{
    let names = crate::types::clone_strings(param_names);
    let mut compiler = LoopCompiler::new(names);
    let captured = clone_binds(closed_env);
    if captured.len() >= usize::MAX - 1 || param_names.len() >= usize::MAX - 1 - captured.len() {
        return None;
    }
    let n = captured.len();
    compiler.captured = captured;
    compiler.fixed = n;
    proof {
        assert forall|i: int| 0 <= i < n implies #[trigger] compiler.captured@[i].0@ == closed_env@[i].0@ by {
            assert(binds_view(compiler.captured@)[i] == binds_view(closed_env@)[i]);
        };
        assert(compiler.known() =~= strings_view(param_names@) + closure_names(closed_env@));
    }
    proof {
        assert(compiler.code_len() == 0);
        assert(compiler.size() == param_names@.len() + closed_env@.len());
    }
    if !compiler.compile_expr(body, outer_env) {
        return None;
    }
    let ghost before = code_view(compiler.code@);
    proof { lemma_finish_ok(before, compiler.size() as int); }
    compiler.code.push(Op::Return);
    let mut code = compiler.code;
    proof {
        assert(code_view(code@) =~= before.push(OpV::Return));
        lemma_peephole3_ok(code_view(code@), compiler.size() as int);
        lemma_peephole3_len(code_view(code@));
    }
    peephole_optimize(&mut code);
    peephole_optimize(&mut code);
    peephole_optimize(&mut code);
    if code.len() as u64 == u64::MAX {
        return None;
    }
    Some(CompiledLambda { num_param_slots: param_names.len(), code, captured: compiler.captured })
}

} // verus!
