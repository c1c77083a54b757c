//! Core value types: Lisp values, their mathematical model, and environments.
use vstd::prelude::*;
use crate::text::str_eq;

verus! {

/// Evaluation budget handed to a program when none is configured: one unit
/// is spent per evaluation step.
pub const DEFAULT_EVAL_GAS_LIMIT: u64 = 300_000_000_000_000;

/// Gas kept back on chain for finishing the call after evaluation.
pub const GAS_BUFFER: u64 = 2_000_000_000_000;

/// The on-chain form of the gas check: with `used` the gas the runtime has
/// used so far in the call, evaluation must stop once it reaches the budget
/// less `GAS_BUFFER`. Nothing is spent from the budget itself.
pub fn check_used_gas(gas: u64, used: u64) -> (r: Result<(), String>)
    ensures
        r is Err <==> used >= (if gas > GAS_BUFFER { gas - GAS_BUFFER } else { 0 }),
        r matches Err(e) ==> e@ == "out of gas"@,
{
    let limit = if gas > GAS_BUFFER { gas - GAS_BUFFER } else { 0 };
    if used >= limit {
        return Err(String::from_str("out of gas"));
    }
    Ok(())
}

/// Spends one unit of the evaluation budget; fails with `out of gas` when it
/// is already spent. This is the step counter the evaluator runs on;
/// `check_used_gas` is the check against the runtime's used gas.
pub fn check_gas(gas: &mut u64) -> (r: Result<(), String>)
    ensures
        *old(gas) == 0 ==> *final(gas) == 0 && (r matches Err(e) && e@ == "out of gas"@),
        *old(gas) > 0 ==> *final(gas) == *old(gas) - 1 && r is Ok,
{
    if *gas == 0 {
        return Err(String::from_str("out of gas"));
    }
    *gas = *gas - 1;
    Ok(())
}

/// What one storage operation costs in evaluation gas.
pub const STORAGE_GAS_COST: u64 = 100;

/// Spends `amount` units of the evaluation budget at once; fails with
/// `out of gas`, spending nothing, when fewer are left.
pub fn consume_gas(gas: &mut u64, amount: u64) -> (r: Result<(), String>)
    ensures
        *old(gas) < amount ==> *final(gas) == *old(gas) && (r matches Err(e) && e@ == "out of gas"@),
        *old(gas) >= amount ==> *final(gas) == *old(gas) - amount && r is Ok,
{
    if *gas < amount {
        return Err(String::from_str("out of gas"));
    }
    *gas = *gas - amount;
    Ok(())
}

/// A Lisp value.
#[derive(Debug, PartialEq)]
pub enum LispVal {
    Nil,
    Bool(bool),
    Num(i64),
    Str(String),
    Sym(String),
    List(Vec<LispVal>),
    Lambda {
        params: Vec<String>,
        rest_param: Option<String>,
        body: Box<LispVal>,
        closed_env: Box<Vec<(String, LispVal)>>,
    },
    /// Internal: the signal a `recur` form sends back to its enclosing loop.
    Recur(Vec<LispVal>),
    /// Dictionary: entries kept in strictly increasing key order.
    Dict(Vec<(String, LispVal)>),
}

/// Mathematical model of a Lisp value.
#[verifier::ext_equal]
pub enum SVal {
    Nil,
    Bool(bool),
    Num(int),
    Str(Seq<char>),
    Sym(Seq<char>),
    List(Seq<SVal>),
    Lambda { params: Seq<Seq<char>>, rest_param: Option<Seq<char>>, body: Box<SVal>, closed_env: Seq<(Seq<char>, SVal)> },
    Recur(Seq<SVal>),
    Dict(Seq<(Seq<char>, SVal)>),
}

pub open spec fn strings_view(v: Seq<String>) -> Seq<Seq<char>> {
    v.map_values(|s: String| s@)
}

impl LispVal {
    pub open spec fn sv(self) -> SVal
        decreases self,
    {
        match self {
            LispVal::Nil => SVal::Nil,
            LispVal::Bool(b) => SVal::Bool(b),
            LispVal::Num(n) => SVal::Num(n as int),
            LispVal::Str(s) => SVal::Str(s@),
            LispVal::Sym(s) => SVal::Sym(s@),
            LispVal::List(l) => SVal::List(Seq::new(l@.len(), |i: int| if 0 <= i < l@.len() { l@[i].sv() } else { SVal::Nil })),
            LispVal::Lambda { params, rest_param, body, closed_env } => SVal::Lambda {
                params: strings_view(params@),
                rest_param: match rest_param { Some(r) => Some(r@), None => None },
                body: Box::new((*body).sv()),
                closed_env: Seq::new(closed_env@.len(), |i: int| if 0 <= i < closed_env@.len() { (closed_env@[i].0@, closed_env@[i].1.sv()) } else { (Seq::empty(), SVal::Nil) }),
            },
            LispVal::Recur(l) => SVal::Recur(Seq::new(l@.len(), |i: int| if 0 <= i < l@.len() { l@[i].sv() } else { SVal::Nil })),
            LispVal::Dict(m) => SVal::Dict(Seq::new(m@.len(), |i: int| if 0 <= i < m@.len() { (m@[i].0@, m@[i].1.sv()) } else { (Seq::empty(), SVal::Nil) })),
        }
    }
}


/// Model of a binding list: names as character sequences, values as models.
pub open spec fn binds_view(s: Seq<(String, LispVal)>) -> Seq<(Seq<char>, SVal)> {
    Seq::new(s.len(), |i: int| (s[i].0@, s[i].1.sv()))
}

/// The most recent binding of `name` in a binding list.
pub open spec fn lookup(v: Seq<(Seq<char>, SVal)>, name: Seq<char>) -> Option<SVal>
    decreases v.len(),
{
    if v.len() == 0 {
        None
    } else if v.last().0 == name {
        Some(v.last().1)
    } else {
        lookup(v.drop_last(), name)
    }
}

/// The position of the most recent binding of `name` (-1 when none).
pub open spec fn newest_index(v: Seq<(Seq<char>, SVal)>, name: Seq<char>) -> int
    decreases v.len(),
{
    if v.len() == 0 {
        -1
    } else if v.last().0 == name {
        v.len() - 1
    } else {
        newest_index(v.drop_last(), name)
    }
}

/// `lookup` finds the binding at `newest_index`.
pub proof fn lemma_newest_index(v: Seq<(Seq<char>, SVal)>, name: Seq<char>)
    ensures
        -1 <= newest_index(v, name) < v.len(),
        lookup(v, name) is None <==> newest_index(v, name) == -1,
        newest_index(v, name) >= 0 ==> v[newest_index(v, name)].0 == name
            && lookup(v, name) == Some(v[newest_index(v, name)].1),
    decreases v.len(),
{
    if v.len() > 0 && v.last().0 != name {
        lemma_newest_index(v.drop_last(), name);
    }
}

/// A binding just made is the one a lookup of its name finds.
pub proof fn lemma_lookup_push(v: Seq<(Seq<char>, SVal)>, name: Seq<char>, x: SVal, other: Seq<char>)
    ensures
        lookup(v.push((name, x)), name) == Some(x),
        other != name ==> lookup(v.push((name, x)), other) == lookup(v, other),
{
    assert(v.push((name, x)).drop_last() =~= v);
}

/// Replacing the most recent binding of `name` changes what a lookup of
/// `name` finds, and nothing else.
pub proof fn lemma_lookup_update_newest(v: Seq<(Seq<char>, SVal)>, name: Seq<char>, x: SVal, other: Seq<char>)
    requires
        newest_index(v, name) >= 0,
    ensures
        lookup(v.update(newest_index(v, name), (name, x)), name) == Some(x),
        other != name ==> lookup(v.update(newest_index(v, name), (name, x)), other) == lookup(v, other),
    decreases v.len(),
{
    lemma_newest_index(v, name);
    let i = newest_index(v, name);
    let u = v.update(i, (name, x));
    if v.last().0 == name {
        assert(i == v.len() - 1);
        assert(u.drop_last() =~= v.drop_last());
        assert(u.last() == (name, x));
    } else {
        lemma_lookup_update_newest(v.drop_last(), name, x, other);
        assert(u.drop_last() =~= v.drop_last().update(i, (name, x)));
        assert(u.last() == v.last());
    }
}

/// Models of a sequence of values.
pub open spec fn vals_view(s: Seq<LispVal>) -> Seq<SVal> {
    Seq::new(s.len(), |i: int| s[i].sv())
}

/// Unfolding of `sv` over the list-shaped variants.
pub broadcast proof fn lemma_sv_unfold(v: LispVal)
    ensures
        #[trigger] v.sv() == (match v {
            LispVal::List(l) => SVal::List(vals_view(l@)),
            LispVal::Recur(l) => SVal::Recur(vals_view(l@)),
            LispVal::Dict(m) => SVal::Dict(binds_view(m@)),
            LispVal::Lambda { params, rest_param, body, closed_env } => SVal::Lambda {
                params: strings_view(params@),
                rest_param: match rest_param { Some(r) => Some(r@), None => None },
                body: Box::new((*body).sv()),
                closed_env: binds_view(closed_env@),
            },
            _ => v.sv(),
        }),
{
    match v {
        LispVal::List(l) => {
            let a = v.sv();
            assert(a is List);
            let q = a->List_0;
            assert(q.len() == l@.len());
            assert forall|i: int| 0 <= i < l@.len() implies q[i] == vals_view(l@)[i] by {
                assert(q[i] == l@[i].sv());
            };
            assert(q =~= vals_view(l@));
        },
        LispVal::Recur(l) => {
            let a = v.sv();
            let q = a->Recur_0;
            assert forall|i: int| 0 <= i < l@.len() implies q[i] == vals_view(l@)[i] by {
                assert(q[i] == l@[i].sv());
            };
            assert(q =~= vals_view(l@));
        },
        LispVal::Dict(m) => {
            let a = v.sv();
            let q = a->Dict_0;
            assert forall|i: int| 0 <= i < m@.len() implies q[i] == binds_view(m@)[i] by {
                assert(q[i] == (m@[i].0@, m@[i].1.sv()));
            };
            assert(q =~= binds_view(m@));
        },
        LispVal::Lambda { params, rest_param, body, closed_env } => {
            let a = v.sv();
            let q = a->closed_env;
            assert forall|i: int| 0 <= i < closed_env@.len() implies q[i] == binds_view(closed_env@)[i] by {
                assert(q[i] == (closed_env@[i].0@, closed_env@[i].1.sv()));
            };
            assert(q =~= binds_view(closed_env@));
            assert(v.sv() =~~= SVal::Lambda {
                params: strings_view(params@),
                rest_param: match rest_param { Some(r) => Some(r@), None => None },
                body: Box::new((*body).sv()),
                closed_env: binds_view(closed_env@),
            });
        },
        _ => {},
    }
}

impl LispVal {
    /// A copy of this value with the same model.
    pub fn deep_clone(&self) -> (r: LispVal)
        ensures
            r.sv() == self.sv(),
        decreases self,
    {
        broadcast use lemma_sv_unfold;
        match self {
            LispVal::Nil => LispVal::Nil,
            LispVal::Bool(b) => LispVal::Bool(*b),
            LispVal::Num(n) => LispVal::Num(*n),
            LispVal::Str(s) => LispVal::Str(s.clone()),
            LispVal::Sym(s) => LispVal::Sym(s.clone()),
            LispVal::List(l) => LispVal::List(clone_vals(l)),
            LispVal::Recur(l) => LispVal::Recur(clone_vals(l)),
            LispVal::Dict(m) => {
                let r = LispVal::Dict(clone_binds(m));
                r
            },
            LispVal::Lambda { params, rest_param, body, closed_env } => {
                let p = clone_strings(params);
                let rp = match rest_param { Some(r) => Some(r.clone()), None => None };
                let b = (**body).deep_clone();
                let e = clone_binds(closed_env);
                let r = LispVal::Lambda { params: p, rest_param: rp, body: Box::new(b), closed_env: Box::new(e) };
                r
            },
        }
    }
}

/// Structural equality of two values (equality of their models).
pub fn val_eq(a: &LispVal, b: &LispVal) -> (r: bool)
    ensures
        r == (a.sv() == b.sv()),
    decreases a,
{
    broadcast use lemma_sv_unfold;
    match (a, b) {
        (LispVal::Nil, LispVal::Nil) => true,
        (LispVal::Bool(x), LispVal::Bool(y)) => *x == *y,
        (LispVal::Num(x), LispVal::Num(y)) => *x == *y,
        (LispVal::Str(x), LispVal::Str(y)) => str_eq(x.as_str(), y.as_str()),
        (LispVal::Sym(x), LispVal::Sym(y)) => str_eq(x.as_str(), y.as_str()),
        (LispVal::List(x), LispVal::List(y)) => vals_eq(x, y),
        (LispVal::Recur(x), LispVal::Recur(y)) => vals_eq(x, y),
        (LispVal::Dict(x), LispVal::Dict(y)) => binds_eq(x, y),
        (LispVal::Lambda { params: p1, rest_param: r1, body: b1, closed_env: e1 },
         LispVal::Lambda { params: p2, rest_param: r2, body: b2, closed_env: e2 }) => {
            let pe = strings_eq(p1, p2);
            let re = match (r1, r2) {
                (Some(x), Some(y)) => str_eq(x.as_str(), y.as_str()),
                (None, None) => true,
                _ => false,
            };
            let be = val_eq(&**b1, &**b2);
            let ee = binds_eq(&**e1, &**e2);
            let ghost rv1: Option<Seq<char>> = match r1 { Some(x) => Some(x@), None => None };
            let ghost rv2: Option<Seq<char>> = match r2 { Some(x) => Some(x@), None => None };
            assert(re == (rv1 == rv2));
            if pe && re && be && ee {
                assert(a.sv() == b.sv());
            } else {
                assert(a.sv() != b.sv()) by {
                    if a.sv() == b.sv() {
                        assert(a.sv()->params == b.sv()->params);
                        assert(a.sv()->rest_param == b.sv()->rest_param);
                        assert(a.sv()->body == b.sv()->body);
                        assert(a.sv()->closed_env == b.sv()->closed_env);
                    }
                };
            }
            pe && re && be && ee
        },
        _ => false,
    }
}

/// Element-wise equality of two lists of strings.
pub fn strings_eq(x: &Vec<String>, y: &Vec<String>) -> (r: bool)
    ensures
        r == (strings_view(x@) == strings_view(y@)),
{
    if x.len() != y.len() {
        assert(strings_view(x@).len() != strings_view(y@).len());
        return false;
    }
    let mut i: usize = 0;
    while i < x.len()
        invariant
            i <= x@.len(),
            x@.len() == y@.len(),
            forall|j: int| 0 <= j < i ==> (#[trigger] x@[j])@ == y@[j]@,
        decreases x.len() - i,
    {
        if !str_eq(x[i].as_str(), y[i].as_str()) {
            assert(strings_view(x@)[i as int] != strings_view(y@)[i as int]);
            return false;
        }
        i += 1;
    }
    assert(strings_view(x@) =~= strings_view(y@));
    true
}

/// Element-wise equality of two lists of values.
pub fn vals_eq(x: &Vec<LispVal>, y: &Vec<LispVal>) -> (r: bool)
    ensures
        r == (vals_view(x@) == vals_view(y@)),
    decreases x,
{
    if x.len() != y.len() {
        assert(vals_view(x@).len() != vals_view(y@).len());
        return false;
    }
    let mut i: usize = 0;
    while i < x.len()
        invariant
            i <= x@.len(),
            x@.len() == y@.len(),
            forall|j: int| 0 <= j < i ==> (#[trigger] x@[j]).sv() == y@[j].sv(),
        decreases x.len() - i,
    {
        proof { assert(decreases_to!(x => x@[i as int])); }
        if !val_eq(&x[i], &y[i]) {
            assert(vals_view(x@)[i as int] != vals_view(y@)[i as int]);
            return false;
        }
        i += 1;
    }
    assert(vals_view(x@) =~= vals_view(y@));
    true
}

/// Entry-wise equality of two binding lists.
pub fn binds_eq(x: &Vec<(String, LispVal)>, y: &Vec<(String, LispVal)>) -> (r: bool)
    ensures
        r == (binds_view(x@) == binds_view(y@)),
    decreases x,
{
    if x.len() != y.len() {
        assert(binds_view(x@).len() != binds_view(y@).len());
        return false;
    }
    let mut i: usize = 0;
    while i < x.len()
        invariant
            i <= x@.len(),
            x@.len() == y@.len(),
            forall|j: int| 0 <= j < i ==> (#[trigger] x@[j]).0@ == y@[j].0@ && x@[j].1.sv() == y@[j].1.sv(),
        decreases x.len() - i,
    {
        proof { assert(decreases_to!(x => x@[i as int].1)); }
        if !str_eq(x[i].0.as_str(), y[i].0.as_str()) || !val_eq(&x[i].1, &y[i].1) {
            assert(binds_view(x@)[i as int] != binds_view(y@)[i as int]);
            return false;
        }
        i += 1;
    }
    assert(binds_view(x@) =~= binds_view(y@));
    true
}

/// Copies a list of strings.
pub fn clone_strings(v: &Vec<String>) -> (r: Vec<String>)
    ensures
        r@ == v@,
{
    let mut r: Vec<String> = Vec::new();
    let mut i: usize = 0;
    while i < v.len()
        invariant
            i <= v@.len(),
            r@ == v@.take(i as int),
        decreases v.len() - i,
    {
        r.push(v[i].clone());
        i += 1;
        assert(r@ =~= v@.take(i as int));
    }
    assert(v@.take(v@.len() as int) =~= v@);
    r
}

/// Copies a list of values, model for model.
pub fn clone_vals(v: &Vec<LispVal>) -> (r: Vec<LispVal>)
    ensures
        vals_view(r@) == vals_view(v@),
        r@.len() == v@.len(),
    decreases v,
{
    let mut r: Vec<LispVal> = Vec::new();
    let mut i: usize = 0;
    while i < v.len()
        invariant
            i <= v@.len(),
            r@.len() == i,
            forall|j: int| 0 <= j < i ==> (#[trigger] r@[j]).sv() == v@[j].sv(),
        decreases v.len() - i,
    {
        proof { assert(decreases_to!(v => v@[i as int])); }
        r.push(v[i].deep_clone());
        i += 1;
    }
    assert(vals_view(r@) =~= vals_view(v@));
    r
}

/// Copies a binding list, model for model.
pub fn clone_binds(v: &Vec<(String, LispVal)>) -> (r: Vec<(String, LispVal)>)
    ensures
        binds_view(r@) == binds_view(v@),
        r@.len() == v@.len(),
    decreases v,
{
    let mut r: Vec<(String, LispVal)> = Vec::new();
    let mut i: usize = 0;
    while i < v.len()
        invariant
            i <= v@.len(),
            r@.len() == i,
            forall|j: int| 0 <= j < i ==> (#[trigger] r@[j]).0@ == v@[j].0@ && r@[j].1.sv() == v@[j].1.sv(),
        decreases v.len() - i,
    {
        proof { assert(decreases_to!(v => v@[i as int].1)); }
        let k = v[i].0.clone();
        let x = v[i].1.deep_clone();
        r.push((k, x));
        i += 1;
    }
    assert(binds_view(r@) =~= binds_view(v@));
    r
}


/// Variable bindings; later bindings shadow earlier ones of the same name.
#[derive(Debug)]
pub struct Env {
    bindings: Vec<(String, LispVal)>,
    /// Log lines written so far in this call (see `log_line`).
    log_lines: u64,
    /// Bytes of log lines written so far in this call.
    log_bytes: u64,
}

impl View for Env {
    type V = Seq<(Seq<char>, SVal)>;

    closed spec fn view(&self) -> Seq<(Seq<char>, SVal)> {
        binds_view(self.bindings@)
    }
}

impl Env {
    pub fn new() -> (e: Env)
        ensures
            e@ == Seq::<(Seq<char>, SVal)>::empty(),
    {
        let e = Env { bindings: Vec::new(), log_lines: 0, log_bytes: 0 };
        assert(e@ =~= Seq::<(Seq<char>, SVal)>::empty());
        e
    }

    /// Builds an environment from a binding list; later entries shadow
    /// earlier ones of the same name.
    pub fn from_vec(bindings: Vec<(String, LispVal)>) -> (e: Env)
        ensures
            e@ == binds_view(bindings@),
    {
        Env { bindings, log_lines: 0, log_bytes: 0 }
    }

    pub fn push(&mut self, name: String, val: LispVal)
        ensures
            final(self)@ == old(self)@.push((name@, val.sv())),
    {
        let ghost old_b = self.bindings@;
        self.bindings.push((name, val));
        assert(binds_view(self.bindings@) =~= binds_view(old_b).push((name@, val.sv())));
    }

    /// The most recent binding for `name`.
    pub fn get(&self, name: &str) -> (r: Option<&LispVal>)
        ensures
            lookup(self@, name@) == (match r { Some(v) => Some(v.sv()), None => None }),
    {
        let mut i = self.bindings.len();
        assert(self@.take(i as int) =~= self@);
        while i > 0
            invariant
                i <= self.bindings@.len(),
                self@.len() == self.bindings@.len(),
                lookup(self@, name@) == lookup(self@.take(i as int), name@),
            decreases i,
        {
            proof {
                assert(self@.take(i as int).drop_last() =~= self@.take(i - 1));
                assert(self@[i - 1] == (self.bindings@[i - 1].0@, self.bindings@[i - 1].1.sv()));
            }
            if str_eq(self.bindings[i - 1].0.as_str(), name) {
                return Some(&self.bindings[i - 1].1);
            }
            i -= 1;
        }
        None
    }

    /// The index of the most recent binding for `name`.
    pub fn index_of(&self, name: &str) -> (r: Option<usize>)
        ensures
            match r {
                Some(i) => i < self@.len() && lookup(self@, name@) == Some(self@[i as int].1)
                    && self@[i as int].0 == name@ && i == newest_index(self@, name@),
                None => lookup(self@, name@) is None && newest_index(self@, name@) == -1,
            },
    {
        let mut i = self.bindings.len();
        assert(self@.take(i as int) =~= self@);
        while i > 0
            invariant
                i <= self.bindings@.len(),
                self@.len() == self.bindings@.len(),
                lookup(self@, name@) == lookup(self@.take(i as int), name@),
                newest_index(self@, name@) == newest_index(self@.take(i as int), name@),
            decreases i,
        {
            proof {
                assert(self@.take(i as int).drop_last() =~= self@.take(i - 1));
                assert(self@[i - 1] == (self.bindings@[i - 1].0@, self.bindings@[i - 1].1.sv()));
            }
            if str_eq(self.bindings[i - 1].0.as_str(), name) {
                return Some(i - 1);
            }
            i -= 1;
        }
        None
    }

    pub fn contains(&self, name: &str) -> (r: bool)
        ensures
            r == (lookup(self@, name@) is Some),
    {
        self.index_of(name).is_some()
    }

    pub fn len(&self) -> (n: usize)
        ensures
            n == self@.len(),
    {
        self.bindings.len()
    }

    pub fn is_empty(&self) -> (r: bool)
        ensures
            r == (self@.len() == 0),
    {
        self.bindings.len() == 0
    }

    /// Drops every binding from position `new_len` on.
    pub fn truncate(&mut self, new_len: usize)
        ensures
            final(self)@ == (if new_len < old(self)@.len() { old(self)@.take(new_len as int) } else { old(self)@ }),
    {
        let ghost old_b = self.bindings@;
        self.bindings.truncate(new_len);
        proof {
            if new_len < old_b.len() {
                assert(binds_view(self.bindings@) =~= binds_view(old_b).take(new_len as int));
            }
        }
    }

    /// Mutable access to the most recent binding for `name`.
    pub fn get_mut(&mut self, name: &str) -> (r: Option<&mut LispVal>)
        ensures
            match r {
                Some(v) => lookup(old(self)@, name@) == Some((*v).sv())
                    && final(self)@ == old(self)@.update(newest_index(old(self)@, name@), (name@, (*final(v)).sv())),
                None => lookup(old(self)@, name@) is None && final(self)@ == old(self)@,
            },
    {
        match self.index_of(name) {
            Some(i) => {
                let ghost old_b = self.bindings@;
                let r = &mut self.bindings[i].1;
                proof {
                    assert(binds_view(after_borrow(self.bindings)@) =~= binds_view(old_b).update(i as int, (name@, (*final(r)).sv())));
                }
                Some(r)
            },
            None => None,
        }
    }

    /// Appends `v` to the list most recently bound to `name`; `false`, with
    /// nothing changed, when that binding is missing or not a list.
    pub fn push_to_list(&mut self, name: &str, v: LispVal) -> (r: bool)
        ensures
            match lookup(old(self)@, name@) {
                Some(SVal::List(vs)) => r && final(self)@ == old(self)@.update(newest_index(old(self)@, name@),
                    (name@, SVal::List(vs.push(v.sv())))),
                _ => !r && final(self)@ == old(self)@,
            },
    {
        broadcast use lemma_sv_unfold;
        match self.index_of(name) {
            Some(i) => {
                let ghost old_b = self.bindings@;
                let (key, val) = self.bindings.remove(i);
                match val {
                    LispVal::List(mut vals) => {
                        let ghost vs0 = vals_view(vals@);
                        vals.push(v);
                        assert(vals_view(vals@) =~= vs0.push(v.sv()));
                        let ghost newv = (key, LispVal::List(vals));
                        self.bindings.insert(i, (key, LispVal::List(vals)));
                        assert(self.bindings@ =~= old_b.update(i as int, newv));
                        assert(key@ == name@);
                        assert(newv.1.sv() == SVal::List(vs0.push(v.sv())));
                        assert(binds_view(self.bindings@) =~= binds_view(old_b).update(i as int, (name@, SVal::List(vs0.push(v.sv())))));
                        true
                    },
                    other => {
                        self.bindings.insert(i, (key, other));
                        assert(self.bindings@ =~= old_b);
                        false
                    },
                }
            },
            None => false,
        }
    }

    /// The binding list, oldest first.
    pub fn bindings(&self) -> (r: &Vec<(String, LispVal)>)
        ensures
            binds_view(r@) == self@,
    {
        &self.bindings
    }

    pub fn into_bindings(self) -> (r: Vec<(String, LispVal)>)
        ensures
            binds_view(r@) == self@,
    {
        self.bindings
    }

    pub fn clear(&mut self)
        ensures
            final(self)@ == Seq::<(Seq<char>, SVal)>::empty(),
    {
        self.bindings.clear();
        assert(binds_view(self.bindings@) =~= Seq::<(Seq<char>, SVal)>::empty());
    }

    /// A copy of this environment with the same model.
    pub fn deep_clone(&self) -> (r: Env)
        ensures
            r@ == self@,
    {
        Env { bindings: clone_binds(&self.bindings), log_lines: self.log_lines, log_bytes: self.log_bytes }
    }

    /// An environment that writes no logs: its log budget is spent from
    /// the start. For evaluations whose effects are thrown away.
    pub fn muted() -> (e: Env)
        ensures
            e@ == Seq::<(Seq<char>, SVal)>::empty(),
    {
        let e = Env { bindings: Vec::new(), log_lines: crate::near::LIB_LOG_LINES, log_bytes: 0 };
        assert(e@ =~= Seq::<(Seq<char>, SVal)>::empty());
        e
    }

    /// Writes a log line when the call's log budget still holds it (at most
    /// `LIB_LOG_LINES` lines and `LIB_LOG_BYTES` bytes in all); otherwise
    /// the line is dropped. The bindings are left as they are.
    pub fn log_line(&mut self, message: &str)
        ensures
            final(self)@ == old(self)@,
    {
        let n = crate::text::str_bytes(message).len();
        if self.log_lines < crate::near::LIB_LOG_LINES && n as u64 <= crate::near::LIB_LOG_BYTES
            && self.log_bytes <= crate::near::LIB_LOG_BYTES - n as u64 {
            crate::near::log_str(message, self.log_lines, self.log_bytes);
            self.log_lines = self.log_lines + 1;
            self.log_bytes = self.log_bytes + n as u64;
        }
    }

    /// Takes over another environment's log counts where they are higher,
    /// so that logs written through either count against one budget.
    pub fn share_log_budget(&mut self, other: &Env)
        ensures
            final(self)@ == old(self)@,
    {
        if other.log_lines > self.log_lines {
            self.log_lines = other.log_lines;
        }
        if other.log_bytes > self.log_bytes {
            self.log_bytes = other.log_bytes;
        }
    }
}

} // verus!
