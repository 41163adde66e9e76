use vstd::prelude::*;

use crate::strings::{chars_of, same_chars};
use crate::values::{CalcResult, ErrorKind, NodeV, grid_view};

verus! {

/// The evaluation context that the spreadsheet functions run in.
pub struct Model {
    /// Names bound by LET (and lambdas) while a formula is evaluated,
    /// the most recent binding of a name last.
    pub lambda_scope: Vec<(String, CalcResult)>,
}

impl Model {
    /// A context with no names bound.
    pub fn new() -> (m: Model)
        ensures
            m.lambda_scope@.len() == 0,
    {
        Model { lambda_scope: Vec::new() }
    }
}

/// The result is the array `g`.
pub open spec fn is_array(r: CalcResult, g: Seq<Seq<NodeV>>) -> bool {
    &&& r is Array
    &&& grid_view(r->Array_0) == g
}

/// The result is the error `e`.
pub open spec fn is_error(r: CalcResult, e: ErrorKind) -> bool {
    r == CalcResult::Error(e)
}

/// The result is the number whose scaled value is `x`.
pub open spec fn is_number(r: CalcResult, x: int) -> bool {
    &&& r is Number
    &&& r->Number_0.scaled == x
}

/// The result is the text `s`.
pub open spec fn is_text(r: CalcResult, s: Seq<char>) -> bool {
    &&& r is Text
    &&& r->Text_0@ == s
}


/// The position of the binding in force for `name` among the first `n`
/// bindings: the last one that binds it.
pub open spec fn last_binding(scope: Seq<(String, CalcResult)>, name: Seq<char>, n: int) -> Option<int>
    decreases n,
{
    if n <= 0 {
        None
    } else if scope[n - 1].0@ == name {
        Some(n - 1)
    } else {
        last_binding(scope, name, n - 1)
    }
}

/// The value bound to `name` in a scope, if any.
pub open spec fn bound_value(scope: Seq<(String, CalcResult)>, name: Seq<char>) -> Option<CalcResult> {
    match last_binding(scope, name, scope.len() as int) {
        Some(i) => Some(scope[i].1),
        None => None,
    }
}

/// LET's arguments are name-value pairs followed by the calculation: any
/// count but an odd one of at least three is a wrong number of arguments
/// (`#ERROR!`); otherwise the number of pairs.
pub fn let_pairs(arg_count: usize) -> (r: Result<usize, ErrorKind>)
    ensures
        (arg_count < 3 || arg_count % 2 == 0) ==> r == Err::<usize, ErrorKind>(ErrorKind::Error),
        !(arg_count < 3 || arg_count % 2 == 0) ==> r == Ok::<usize, ErrorKind>(((arg_count - 1) / 2) as usize),
{
    if arg_count < 3 || arg_count % 2 == 0 {
        Err(ErrorKind::Error)
    } else {
        Ok((arg_count - 1) / 2)
    }
}

impl Model {
    /// The position of the binding in force for `name` (the most recent).
    pub fn lookup(&self, name: &str) -> (r: Option<usize>)
        ensures
            match r {
                Some(i) => last_binding(self.lambda_scope@, name@, self.lambda_scope@.len() as int) == Some(
                    i as int,
                ),
                None => last_binding(self.lambda_scope@, name@, self.lambda_scope@.len() as int) is None,
            },
    {
        let want = chars_of(name);
        let mut n: usize = self.lambda_scope.len();
        while n > 0
            invariant
                n <= self.lambda_scope.len(),
                want@ == name@,
                last_binding(self.lambda_scope@, name@, self.lambda_scope@.len() as int) == last_binding(
                    self.lambda_scope@,
                    name@,
                    n as int,
                ),
            decreases n,
        {
            let have = chars_of(self.lambda_scope[n - 1].0.as_str());
            if same_chars(&have, &want) {
                return Some(n - 1);
            }
            n -= 1;
        }
        None
    }

    /// One step of a LET evaluated pair by pair: one name-value pair, given
    /// the scope's length when the LET began. An argument that is no name
    /// ends the LET with `#VALUE!`, a value that is an error ends it with
    /// that error (either way the scope is restored and the result given);
    /// otherwise the name is bound to the value for the rest of the LET.
    pub fn let_step(&mut self, saved: usize, name: Option<String>, value: CalcResult) -> (r: Option<CalcResult>)
        requires
            saved <= old(self).lambda_scope.len(),
        ensures
            match name {
                None => {
                    &&& r == Some(CalcResult::Error(ErrorKind::Value))
                    &&& final(self).lambda_scope@ == old(self).lambda_scope@.take(saved as int)
                },
                Some(n) => if value is Error {
                    &&& r == Some(value)
                    &&& final(self).lambda_scope@ == old(self).lambda_scope@.take(saved as int)
                } else {
                    &&& r is None
                    &&& final(self).lambda_scope@ == old(self).lambda_scope@.push((n, value))
                },
            },
    {
        match name {
            None => {
                self.lambda_scope.truncate(saved);
                Some(CalcResult::Error(ErrorKind::Value))
            },
            Some(n) => {
                if let CalcResult::Error(_) = value {
                    self.lambda_scope.truncate(saved);
                    Some(value)
                } else {
                    self.lambda_scope.push((n, value));
                    None
                }
            },
        }
    }

    /// The end of a LET: the scope is restored to its length when the LET
    /// began and the calculation's result is given.
    pub fn let_end(&mut self, saved: usize, result: CalcResult) -> (r: CalcResult)
        requires
            saved <= old(self).lambda_scope.len(),
        ensures
            r == result,
            final(self).lambda_scope@ == old(self).lambda_scope@.take(saved as int),
    {
        self.lambda_scope.truncate(saved);
        result
    }
}

/// The bindings of the first `vals.len()` names to the values.
pub open spec fn let_bindings(names: Seq<Option<String>>, vals: Seq<CalcResult>) -> Seq<(String, CalcResult)> {
    Seq::new(vals.len(), |j: int| (names[j]->Some_0, vals[j]))
}

/// The first `vals.len()` pairs of a LET were bound: each name is a name,
/// and each value is no error and a result `values` may give for the pair's
/// index and the scope `old` with the names before it bound.
pub open spec fn let_evaluated<V: Fn(&Vec<(String, CalcResult)>, usize) -> CalcResult>(
    values: V,
    old: Seq<(String, CalcResult)>,
    names: Seq<Option<String>>,
    vals: Seq<CalcResult>,
) -> bool {
    &&& vals.len() <= names.len()
    &&& forall|j: int|
        0 <= j < vals.len() ==> {
            &&& names[j] is Some
            &&& !(#[trigger] vals[j] is Error)
            &&& exists|p: Vec<(String, CalcResult)>|
                p@ == old + let_bindings(names, vals.take(j)) && call_ensures(values, (&p, j as usize), vals[j])
        }
}

/// What a LET gives once its first `vals.len()` pairs are bound: with every
/// pair bound, a result `body` may give for the scope with all the names
/// bound; otherwise, at the next pair, `#VALUE!` for an argument that is no
/// name, or else the error that `values` gave for it.
pub open spec fn let_outcome<
    V: Fn(&Vec<(String, CalcResult)>, usize) -> CalcResult,
    B: Fn(&Vec<(String, CalcResult)>) -> CalcResult,
>(
    values: V,
    body: B,
    old: Seq<(String, CalcResult)>,
    names: Seq<Option<String>>,
    vals: Seq<CalcResult>,
    r: CalcResult,
) -> bool {
    if vals.len() == names.len() {
        exists|sc: Vec<(String, CalcResult)>|
            sc@ == old + let_bindings(names, vals) && call_ensures(body, (&sc,), r)
    } else if names[vals.len() as int] is None {
        r == CalcResult::Error(ErrorKind::Value)
    } else {
        &&& r is Error
        &&& exists|p: Vec<(String, CalcResult)>|
            p@ == old + let_bindings(names, vals) && call_ensures(values, (&p, vals.len() as usize), r)
    }
}

impl Model {
    /// LET(name1, value1, ..., calculation), given the names (`None` for an
    /// argument that is no name), the evaluation of the values (`values`,
    /// given the scope and the pair's index) and of the calculation
    /// (`body`, given the scope). Pair by pair, an argument that is no name
    /// gives `#VALUE!`; otherwise the value is evaluated with the names
    /// before it bound (a later name shadows an earlier equal one), and an
    /// error value is the result; otherwise the name is bound to it. With
    /// every pair bound, the result is the calculation evaluated with all
    /// the names bound. No pair at all is a wrong number of arguments
    /// (`#ERROR!`). On every path the scope is what it was before.
    pub fn fn_let<
        V: Fn(&Vec<(String, CalcResult)>, usize) -> CalcResult,
        B: Fn(&Vec<(String, CalcResult)>) -> CalcResult,
    >(&mut self, names: &Vec<Option<String>>, values: V, body: B) -> (r: CalcResult)
        requires
            forall|sc: Vec<(String, CalcResult)>, i: usize| call_requires(values, (&sc, i)),
            forall|sc: Vec<(String, CalcResult)>| call_requires(body, (&sc,)),
        ensures
            final(self).lambda_scope@ == old(self).lambda_scope@,
            names.len() == 0 ==> r == CalcResult::Error(ErrorKind::Error),
            names.len() > 0 ==> exists|vals: Seq<CalcResult>|
                let_evaluated(values, old(self).lambda_scope@, names@, vals) && let_outcome(
                    values,
                    body,
                    old(self).lambda_scope@,
                    names@,
                    vals,
                    r,
                ),
    {
        if names.len() == 0 {
            return CalcResult::Error(ErrorKind::Error);
        }
        let saved = self.lambda_scope.len();
        let ghost before = self.lambda_scope@;
        let ghost vals: Seq<CalcResult> = Seq::empty();
        let mut i: usize = 0;
        assert(let_bindings(names@, vals) =~= Seq::<(String, CalcResult)>::empty());
        assert(self.lambda_scope@ =~= before + let_bindings(names@, vals));
        while i < names.len()
            invariant
                i <= names.len(),
                saved == before.len(),
                before == old(self).lambda_scope@,
                forall|sc: Vec<(String, CalcResult)>, j: usize| call_requires(values, (&sc, j)),
                vals.len() == i,
                self.lambda_scope@ == before + let_bindings(names@, vals),
                let_evaluated(values, before, names@, vals),
            decreases names.len() - i,
        {
            let ghost p = self.lambda_scope;
            let name: String = match &names[i] {
                Some(n) => n.clone(),
                None => {
                    self.lambda_scope.truncate(saved);
                    assert(self.lambda_scope@ =~= before);
                    assert(let_outcome(values, body, before, names@, vals, CalcResult::Error(ErrorKind::Value)));
                    return CalcResult::Error(ErrorKind::Value);
                },
            };
            let v = values(&self.lambda_scope, i);
            if let CalcResult::Error(_) = v {
                self.lambda_scope.truncate(saved);
                assert(self.lambda_scope@ =~= before);
                assert(let_outcome(values, body, before, names@, vals, v));
                return v;
            }
            let ghost vals2 = vals.push(v);
            proof {
                assert(vals2.take(i as int) =~= vals);
                assert forall|j: int| 0 <= j < vals2.len() implies {
                    &&& names@[j] is Some
                    &&& !(#[trigger] vals2[j] is Error)
                    &&& exists|q: Vec<(String, CalcResult)>|
                        q@ == before + let_bindings(names@, vals2.take(j)) && call_ensures(values, (&q, j as usize), vals2[j])
                } by {
                    if j < i {
                        assert(vals2[j] == vals[j]);
                        assert(vals2.take(j) =~= vals.take(j));
                    } else {
                        assert(p@ == before + let_bindings(names@, vals2.take(j)));
                    }
                }
            }
            self.lambda_scope.push((name, v));
            proof {
                vals = vals2;
                assert(self.lambda_scope@ =~= before + let_bindings(names@, vals));
            }
            i += 1;
        }
        let ghost sc = self.lambda_scope;
        let res = body(&self.lambda_scope);
        assert(let_outcome(values, body, before, names@, vals, res));
        let r = self.let_end(saved, res);
        assert(self.lambda_scope@ =~= before);
        r
    }
}

/// Law: after LET binds a name, the name stands for the new value, whatever
/// it was bound to before (a later binding shadows an earlier one).
pub proof fn lemma_bind_shadows(scope: Seq<(String, CalcResult)>, name: String, value: CalcResult)
    ensures
        bound_value(scope.push((name, value)), name@) == Some(value),
{
}

/// Law: binding a name leaves what every other name stands for unchanged.
pub proof fn lemma_bind_keeps_others(scope: Seq<(String, CalcResult)>, name: String, value: CalcResult, other: Seq<char>)
    requires
        other != name@,
    ensures
        bound_value(scope.push((name, value)), other) == bound_value(scope, other),
{
    let a = scope.push((name, value));
    assert(a[scope.len() as int].0@ != other);
    assert(last_binding(a, other, a.len() as int) == last_binding(a, other, scope.len() as int));
    lemma_last_binding_prefix(a, scope, other, scope.len() as int);
    lemma_last_binding_bound(scope, other, scope.len() as int);
}

proof fn lemma_last_binding_bound(scope: Seq<(String, CalcResult)>, name: Seq<char>, n: int)
    ensures
        last_binding(scope, name, n) matches Some(i) ==> 0 <= i < n,
    decreases n,
{
    if n > 0 {
        lemma_last_binding_bound(scope, name, n - 1);
    }
}

proof fn lemma_last_binding_prefix(a: Seq<(String, CalcResult)>, b: Seq<(String, CalcResult)>, name: Seq<char>, n: int)
    requires
        0 <= n <= b.len(),
        b.len() <= a.len(),
        forall|i: int| 0 <= i < b.len() ==> a[i] == b[i],
    ensures
        last_binding(a, name, n) == last_binding(b, name, n),
    decreases n,
{
    if n > 0 {
        lemma_last_binding_prefix(a, b, name, n - 1);
    }
}

} // verus!
