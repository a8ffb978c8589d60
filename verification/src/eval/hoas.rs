//! Evaluation of pooled expressions to values.
//!
//! Functions are values that remember their body, the environment slots the
//! body can reach and the globals they were created with; applying one
//! evaluates its body in that environment extended with the argument.
use vstd::prelude::*;

use crate::expr::{Expr, MatchArms, MatchCase, Pattern, RecordField};
use crate::pools::{assoc_find, assoc_get, assoc_index, assoc_insert, assoc_put, lemma_assoc_index, DeBruijnIndex, ExprId, PatternId, Pools};
use crate::text::{chars_to_string, int_text, push_chars, push_isize, push_str};
use crate::InternedString;
use vstd::std_specs::cmp::PartialEqSpecImpl;

verus! {

/// The nesting budget of one evaluation: the largest machine integer, so that only the
/// machine's own limits end a deep evaluation.
pub const EVAL_DEPTH: usize = usize::MAX;

/// A list of values, first element first.
#[derive(Debug, PartialEq)]
pub enum ValueList {
    Nil,
    Cons(Box<PooledValue>, Box<ValueList>),
}

/// A list of named values (record fields or global bindings), in order.
#[derive(Debug, PartialEq)]
pub enum FieldList {
    Nil,
    Cons(InternedString, Box<PooledValue>, Box<FieldList>),
}

/// What applying a function does.
#[derive(Debug, PartialEq)]
pub enum FunctionKind {
    /// Evaluates the body with the captured environment and the argument.
    Closure,
    /// A top-level function `name`: its implementation is evaluated with the
    /// given environment and globals, where `name` is bound to the function
    /// itself, and the result is applied to the argument.
    Recursive(InternedString, ValueList, FieldList),
    /// The builtin `add`, waiting for its first argument; the name is that of
    /// the second parameter.
    AddIntrinsic(InternedString),
    /// The builtin `add` applied to its first argument.
    AddPartial(isize),
}

/// A function value.
#[derive(Debug, PartialEq)]
pub struct HOASFunction {
    pub kind: FunctionKind,
    pub param: InternedString,
    pub body_id: ExprId,
    pub captured_env: ValueList,
    pub captured_globals: FieldList,
}

/// A runtime value.
#[derive(Debug)]
pub enum PooledValue {
    Int(isize),
    /// A string literal's text, by its handle.
    String(InternedString),
    Unit,
    Function(Box<HOASFunction>),
    Constructor(InternedString, ValueList),
    Record(FieldList),
}

/// Why an evaluation stopped.
#[derive(Debug, Clone, Copy, PartialEq, Eq, Structural)]
pub enum EvalError {
    UnboundVariable(InternedString, usize),
    UnboundGlobal(InternedString),
    NotAFunction,
    NonExhaustiveMatch,
    MissingField(InternedString),
    ProjectNonRecord,
    ExtendNonRecord,
    ForeignCode,
    RecordPattern,
    AddFirstArgument,
    AddSecondArgument,
    IntegerOverflow,
    ImplementationNotFunction,
    DepthExceeded,
}

// ----- lists ---------------------------------------------------------------

/// The elements of a value list, in order.
pub open spec fn list_seq(l: ValueList) -> Seq<PooledValue>
    decreases l,
{
    match l {
        ValueList::Nil => Seq::empty(),
        ValueList::Cons(h, t) => seq![*h] + list_seq(*t),
    }
}

/// The entries of a field list, in order.
pub open spec fn fields_seq(l: FieldList) -> Seq<(InternedString, PooledValue)>
    decreases l,
{
    match l {
        FieldList::Nil => Seq::empty(),
        FieldList::Cons(k, v, t) => seq![(k, *v)] + fields_seq(*t),
    }
}

/// The list of the elements of `s` from position `i` on.
pub open spec fn list_from(s: Seq<PooledValue>, i: int) -> ValueList
    decreases s.len() - i,
{
    if i < 0 || i >= s.len() {
        ValueList::Nil
    } else {
        ValueList::Cons(Box::new(s[i]), Box::new(list_from(s, i + 1)))
    }
}

/// The list of the entries of `s` from position `i` on.
pub open spec fn fields_from(s: Seq<(InternedString, PooledValue)>, i: int) -> FieldList
    decreases s.len() - i,
{
    if i < 0 || i >= s.len() {
        FieldList::Nil
    } else {
        FieldList::Cons(s[i].0, Box::new(s[i].1), Box::new(fields_from(s, i + 1)))
    }
}

/// `l` with `v` appended.
pub open spec fn list_push(l: ValueList, v: PooledValue) -> ValueList
    decreases l,
{
    match l {
        ValueList::Nil => ValueList::Cons(Box::new(v), Box::new(ValueList::Nil)),
        ValueList::Cons(h, t) => ValueList::Cons(h, Box::new(list_push(*t, v))),
    }
}

/// The value of the first field named `k`.
pub open spec fn fields_get(l: FieldList, k: InternedString) -> Option<PooledValue>
    decreases l,
{
    match l {
        FieldList::Nil => None,
        FieldList::Cons(n, v, t) => if n == k {
            Some(*v)
        } else {
            fields_get(*t, k)
        },
    }
}

/// `l` with the first field named `k` set to `v`, or with `k: v` appended.
pub open spec fn fields_put(l: FieldList, k: InternedString, v: PooledValue) -> FieldList
    decreases l,
{
    match l {
        FieldList::Nil => FieldList::Cons(k, Box::new(v), Box::new(FieldList::Nil)),
        FieldList::Cons(n, x, t) => if n == k {
            FieldList::Cons(k, Box::new(v), t)
        } else {
            FieldList::Cons(n, x, Box::new(fields_put(*t, k, v)))
        },
    }
}

pub open spec fn list_len(l: ValueList) -> nat
    decreases l,
{
    match l {
        ValueList::Nil => 0,
        ValueList::Cons(_, t) => 1 + list_len(*t),
    }
}

// ----- validity ------------------------------------------------------------

/// Every function inside `v` that evaluates an expression names one of the
/// first `n` expressions.
pub open spec fn value_ok(n: nat, v: PooledValue) -> bool
    decreases v,
{
    match v {
        PooledValue::Function(f) => {
            &&& (f.kind is Closure || f.kind is Recursive) ==> (f.body_id.0 as int) < n
            &&& list_ok(n, f.captured_env)
            &&& fields_ok(n, f.captured_globals)
            &&& match f.kind {
                FunctionKind::Recursive(_, vs, gs) => list_ok(n, vs) && fields_ok(n, gs),
                _ => true,
            }
        },
        PooledValue::Constructor(_, l) => list_ok(n, l),
        PooledValue::Record(l) => fields_ok(n, l),
        _ => true,
    }
}

pub open spec fn list_ok(n: nat, l: ValueList) -> bool
    decreases l,
{
    match l {
        ValueList::Nil => true,
        ValueList::Cons(h, t) => value_ok(n, *h) && list_ok(n, *t),
    }
}

pub open spec fn fields_ok(n: nat, l: FieldList) -> bool
    decreases l,
{
    match l {
        FieldList::Nil => true,
        FieldList::Cons(_, v, t) => value_ok(n, *v) && fields_ok(n, *t),
    }
}

pub open spec fn values_ok(n: nat, s: Seq<PooledValue>) -> bool {
    forall|i: int| 0 <= i < s.len() ==> #[trigger] value_ok(n, s[i])
}

pub open spec fn globals_ok(n: nat, s: Seq<(InternedString, PooledValue)>) -> bool {
    forall|i: int| 0 <= i < s.len() ==> #[trigger] value_ok(n, s[i].1)
}

pub proof fn lemma_list_seq_ok(n: nat, l: ValueList)
    ensures
        list_ok(n, l) <==> values_ok(n, list_seq(l)),
    decreases l,
{
    match l {
        ValueList::Nil => {},
        ValueList::Cons(h, t) => {
            lemma_list_seq_ok(n, *t);
            let s = list_seq(l);
            assert(s == seq![*h] + list_seq(*t));
            if values_ok(n, s) {
                assert(value_ok(n, s[0]));
                assert forall|i: int| 0 <= i < list_seq(*t).len() implies #[trigger] value_ok(n, list_seq(*t)[i]) by {
                    assert(s[i + 1] == list_seq(*t)[i]);
                }
            }
            if list_ok(n, l) {
                assert forall|i: int| 0 <= i < s.len() implies #[trigger] value_ok(n, s[i]) by {
                    if i > 0 {
                        assert(s[i] == list_seq(*t)[i - 1]);
                    }
                }
            }
        },
    }
}

pub proof fn lemma_fields_seq_ok(n: nat, l: FieldList)
    ensures
        fields_ok(n, l) <==> globals_ok(n, fields_seq(l)),
    decreases l,
{
    match l {
        FieldList::Nil => {},
        FieldList::Cons(k, v, t) => {
            lemma_fields_seq_ok(n, *t);
            let s = fields_seq(l);
            assert(s == seq![(k, *v)] + fields_seq(*t));
            if globals_ok(n, s) {
                assert(value_ok(n, s[0].1));
                assert forall|i: int| 0 <= i < fields_seq(*t).len() implies #[trigger] value_ok(n, fields_seq(*t)[i].1) by {
                    assert(s[i + 1] == fields_seq(*t)[i]);
                }
            }
            if fields_ok(n, l) {
                assert forall|i: int| 0 <= i < s.len() implies #[trigger] value_ok(n, s[i].1) by {
                    if i > 0 {
                        assert(s[i] == fields_seq(*t)[i - 1]);
                    }
                }
            }
        },
    }
}

pub proof fn lemma_list_from_ok(n: nat, s: Seq<PooledValue>, i: int)
    requires
        values_ok(n, s),
    ensures
        list_ok(n, list_from(s, i)),
    decreases s.len() - i,
{
    if 0 <= i < s.len() {
        assert(value_ok(n, s[i]));
        lemma_list_from_ok(n, s, i + 1);
    }
}

pub proof fn lemma_fields_from_ok(n: nat, s: Seq<(InternedString, PooledValue)>, i: int)
    requires
        globals_ok(n, s),
    ensures
        fields_ok(n, fields_from(s, i)),
    decreases s.len() - i,
{
    if 0 <= i < s.len() {
        assert(value_ok(n, s[i].1));
        lemma_fields_from_ok(n, s, i + 1);
    }
}

pub proof fn lemma_list_push_ok(n: nat, l: ValueList, v: PooledValue)
    requires
        list_ok(n, l),
        value_ok(n, v),
    ensures
        list_ok(n, list_push(l, v)),
    decreases l,
{
    match l {
        ValueList::Nil => {},
        ValueList::Cons(_, t) => lemma_list_push_ok(n, *t, v),
    }
}

pub proof fn lemma_fields_put_ok(n: nat, l: FieldList, k: InternedString, v: PooledValue)
    requires
        fields_ok(n, l),
        value_ok(n, v),
    ensures
        fields_ok(n, fields_put(l, k, v)),
    decreases l,
{
    match l {
        FieldList::Nil => {},
        FieldList::Cons(_, _, t) => lemma_fields_put_ok(n, *t, k, v),
    }
}

pub proof fn lemma_fields_get_ok(n: nat, l: FieldList, k: InternedString)
    requires
        fields_ok(n, l),
    ensures
        fields_get(l, k) matches Some(v) ==> value_ok(n, v),
    decreases l,
{
    match l {
        FieldList::Nil => {},
        FieldList::Cons(_, _, t) => lemma_fields_get_ok(n, *t, k),
    }
}

pub proof fn lemma_value_ok_grow(a: nat, b: nat, v: PooledValue)
    requires
        a <= b,
        value_ok(a, v),
    ensures
        value_ok(b, v),
    decreases v, 0nat,
{
    match v {
        PooledValue::Function(f) => {
            lemma_list_ok_grow(a, b, f.captured_env);
            lemma_fields_ok_grow(a, b, f.captured_globals);
            match f.kind {
                FunctionKind::Recursive(_, vs, gs) => {
                    lemma_list_ok_grow(a, b, vs);
                    lemma_fields_ok_grow(a, b, gs);
                },
                _ => {},
            }
        },
        PooledValue::Constructor(_, l) => lemma_list_ok_grow(a, b, l),
        PooledValue::Record(l) => lemma_fields_ok_grow(a, b, l),
        _ => {},
    }
}

pub proof fn lemma_list_ok_grow(a: nat, b: nat, l: ValueList)
    requires
        a <= b,
        list_ok(a, l),
    ensures
        list_ok(b, l),
    decreases l, 0nat,
{
    match l {
        ValueList::Nil => {},
        ValueList::Cons(h, t) => {
            lemma_value_ok_grow(a, b, *h);
            lemma_list_ok_grow(a, b, *t);
        },
    }
}

pub proof fn lemma_fields_ok_grow(a: nat, b: nat, l: FieldList)
    requires
        a <= b,
        fields_ok(a, l),
    ensures
        fields_ok(b, l),
    decreases l, 0nat,
{
    match l {
        FieldList::Nil => {},
        FieldList::Cons(_, v, t) => {
            lemma_value_ok_grow(a, b, *v);
            lemma_fields_ok_grow(a, b, *t);
        },
    }
}

// ----- copying and list operations ----------------------------------------

impl PooledValue {
    /// A copy of this value.
    pub fn copy(&self) -> (r: Self)
        ensures
            r == *self,
        decreases *self, 0nat,
    {
        match self {
            PooledValue::Int(n) => PooledValue::Int(*n),
            PooledValue::String(s) => PooledValue::String(*s),
            PooledValue::Unit => PooledValue::Unit,
            PooledValue::Function(f) => PooledValue::Function(Box::new(f.copy())),
            PooledValue::Constructor(n, l) => PooledValue::Constructor(*n, l.copy()),
            PooledValue::Record(l) => PooledValue::Record(l.copy()),
        }
    }
}

impl HOASFunction {
    /// A copy of this function.
    pub fn copy(&self) -> (r: Self)
        ensures
            r == *self,
        decreases *self, 0nat,
    {
        let kind = match &self.kind {
            FunctionKind::Closure => FunctionKind::Closure,
            FunctionKind::Recursive(n, vs, gs) => FunctionKind::Recursive(*n, vs.copy(), gs.copy()),
            FunctionKind::AddIntrinsic(y) => FunctionKind::AddIntrinsic(*y),
            FunctionKind::AddPartial(x) => FunctionKind::AddPartial(*x),
        };
        HOASFunction {
            kind,
            param: self.param,
            body_id: self.body_id,
            captured_env: self.captured_env.copy(),
            captured_globals: self.captured_globals.copy(),
        }
    }
}

impl ValueList {
    /// A copy of this list.
    pub fn copy(&self) -> (r: Self)
        ensures
            r == *self,
        decreases *self, 0nat,
    {
        match self {
            ValueList::Nil => ValueList::Nil,
            ValueList::Cons(h, t) => ValueList::Cons(Box::new((**h).copy()), Box::new((**t).copy())),
        }
    }

    /// Appends the elements of this list to `out`.
    pub fn push_into(&self, out: &mut Vec<PooledValue>)
        ensures
            final(out)@ == old(out)@ + list_seq(*self),
        decreases *self,
    {
        match self {
            ValueList::Nil => {
                assert(old(out)@ + Seq::<PooledValue>::empty() =~= old(out)@);
            },
            ValueList::Cons(h, t) => {
                out.push((**h).copy());
                t.push_into(out);
                assert(old(out)@ + list_seq(*self) =~= old(out)@.push(**h) + list_seq(**t));
            },
        }
    }

    /// This list with `v` appended.
    pub fn push_back(self, v: PooledValue) -> (r: Self)
        ensures
            r == list_push(self, v),
        decreases self,
    {
        match self {
            ValueList::Nil => ValueList::Cons(Box::new(v), Box::new(ValueList::Nil)),
            ValueList::Cons(h, t) => ValueList::Cons(h, Box::new((*t).push_back(v))),
        }
    }

    /// Whether the list is empty.
    pub fn is_empty(&self) -> (r: bool)
        ensures
            r == (*self is Nil),
    {
        match self {
            ValueList::Nil => true,
            _ => false,
        }
    }

    /// The number of elements.
    pub fn len(&self) -> (r: usize)
        requires
            list_len(*self) <= usize::MAX,
        ensures
            r == list_len(*self),
        decreases *self,
    {
        match self {
            ValueList::Nil => 0,
            ValueList::Cons(_, t) => 1 + t.len(),
        }
    }
}

impl FieldList {
    /// A copy of this list.
    pub fn copy(&self) -> (r: Self)
        ensures
            r == *self,
        decreases *self, 0nat,
    {
        match self {
            FieldList::Nil => FieldList::Nil,
            FieldList::Cons(k, v, t) => FieldList::Cons(*k, Box::new((**v).copy()), Box::new((**t).copy())),
        }
    }

    /// Appends the entries of this list to `out`.
    pub fn push_into(&self, out: &mut Vec<(InternedString, PooledValue)>)
        ensures
            final(out)@ == old(out)@ + fields_seq(*self),
        decreases *self,
    {
        match self {
            FieldList::Nil => {
                assert(old(out)@ + Seq::<(InternedString, PooledValue)>::empty() =~= old(out)@);
            },
            FieldList::Cons(k, v, t) => {
                out.push((*k, (**v).copy()));
                t.push_into(out);
                assert(old(out)@ + fields_seq(*self) =~= old(out)@.push((*k, **v)) + fields_seq(**t));
            },
        }
    }

    /// A copy of the value of the first field named `k`.
    pub fn get(&self, k: InternedString) -> (r: Option<PooledValue>)
        ensures
            r == fields_get(*self, k),
        decreases *self,
    {
        match self {
            FieldList::Nil => None,
            FieldList::Cons(n, v, t) => {
                if *n == k {
                    Some((**v).copy())
                } else {
                    t.get(k)
                }
            },
        }
    }

    /// This list with the first field named `k` set to `v`, or `k: v` appended.
    pub fn put(self, k: InternedString, v: PooledValue) -> (r: Self)
        ensures
            r == fields_put(self, k, v),
        decreases self,
    {
        match self {
            FieldList::Nil => FieldList::Cons(k, Box::new(v), Box::new(FieldList::Nil)),
            FieldList::Cons(n, x, t) => {
                if n == k {
                    FieldList::Cons(k, Box::new(v), t)
                } else {
                    FieldList::Cons(n, x, Box::new((*t).put(k, v)))
                }
            },
        }
    }

    /// Whether the list is empty.
    pub fn is_empty(&self) -> (r: bool)
        ensures
            r == (*self is Nil),
    {
        match self {
            FieldList::Nil => true,
            _ => false,
        }
    }
}

/// The elements of `s` from position `i` on, as a list.
pub fn list_from_vec(s: &Vec<PooledValue>, i: usize) -> (r: ValueList)
    ensures
        r == list_from(s@, i as int),
    decreases s.len() - i,
{
    if i >= s.len() {
        ValueList::Nil
    } else {
        ValueList::Cons(Box::new(s[i].copy()), Box::new(list_from_vec(s, i + 1)))
    }
}

/// The entries of `s` from position `i` on, as a list.
pub fn fields_from_vec(s: &Vec<(InternedString, PooledValue)>, i: usize) -> (r: FieldList)
    ensures
        r == fields_from(s@, i as int),
    decreases s.len() - i,
{
    if i >= s.len() {
        FieldList::Nil
    } else {
        FieldList::Cons(s[i].0, Box::new(s[i].1.copy()), Box::new(fields_from_vec(s, i + 1)))
    }
}

/// A copy of a vector of values.
pub fn copy_values(s: &Vec<PooledValue>) -> (r: Vec<PooledValue>)
    ensures
        r@ == s@,
{
    let mut r: Vec<PooledValue> = Vec::new();
    let mut i: usize = 0;
    while i < s.len()
        invariant
            i <= s.len(),
            r@ == s@.subrange(0, i as int),
        decreases s.len() - i,
    {
        r.push(s[i].copy());
        i = i + 1;
        assert(r@ =~= s@.subrange(0, i as int));
    }
    assert(s@.subrange(0, s.len() as int) =~= s@);
    r
}

/// A copy of a vector of named values.
pub fn copy_globals(s: &Vec<(InternedString, PooledValue)>) -> (r: Vec<(InternedString, PooledValue)>)
    ensures
        r@ == s@,
{
    let mut r: Vec<(InternedString, PooledValue)> = Vec::new();
    let mut i: usize = 0;
    while i < s.len()
        invariant
            i <= s.len(),
            r@ == s@.subrange(0, i as int),
        decreases s.len() - i,
    {
        r.push((s[i].0, s[i].1.copy()));
        i = i + 1;
        assert(r@ =~= s@.subrange(0, i as int));
    }
    assert(s@.subrange(0, s.len() as int) =~= s@);
    r
}

// ----- free variables ------------------------------------------------------

pub open spec fn max_int(a: int, b: int) -> int {
    if a >= b { a } else { b }
}

/// How many environment slots outside `depth` binders expression `e` refers
/// to: the largest `i - depth + 1` over its variables of index `i >= depth`,
/// where a `match` counts only its scrutinee.
pub open spec fn free_vars(p: Pools, e: int, depth: int) -> int
    decreases e, 1int, 0int,
{
    if e < 0 || e >= p.exprs@.len() {
        0
    } else {
        match p.exprs@[e] {
            Expr::Var(i, _, _) => if (i.0 as int) < depth {
                0
            } else {
                i.0 - depth + 1
            },
            Expr::Call(f, a, _) => max_int(
                if f.0 < e { free_vars(p, f.0 as int, depth) } else { 0 },
                if a.0 < e { free_vars(p, a.0 as int, depth) } else { 0 },
            ),
            Expr::Lambda(b, _, _) => if b.0 < e { free_vars(p, b.0 as int, depth + 1) } else { 0 },
            Expr::Let(v, b, _, _) => max_int(
                if v.0 < e { free_vars(p, v.0 as int, depth) } else { 0 },
                if b.0 < e { free_vars(p, b.0 as int, depth + 1) } else { 0 },
            ),
            Expr::Construct(_, a, _) => if a.0 < e { free_vars(p, a.0 as int, depth) } else { 0 },
            Expr::Match(x, _, _) => if x.0 < e { free_vars(p, x.0 as int, depth) } else { 0 },
            Expr::Record(start, len, _) => free_vars_fields(p, e, start.0 as int, len as int, depth),
            Expr::Project(r, _, _) => if r.0 < e { free_vars(p, r.0 as int, depth) } else { 0 },
            Expr::Extend(r, start, len, _) => max_int(
                if r.0 < e { free_vars(p, r.0 as int, depth) } else { 0 },
                free_vars_fields(p, e, start.0 as int, len as int, depth),
            ),
            Expr::Ffi(_, _, Some(a), _) => if a.0 < e { free_vars(p, a.0 as int, depth) } else { 0 },
            _ => 0,
        }
    }
}

/// The largest count over the first `n` fields of the run at `start`.
pub open spec fn free_vars_fields(p: Pools, parent: int, start: int, n: int, depth: int) -> int
    decreases parent, 0int, n,
{
    if n <= 0 || start < 0 || start + n > p.record_fields@.len() {
        0
    } else {
        let f = p.record_fields@[start + n - 1];
        max_int(
            free_vars_fields(p, parent, start, n - 1, depth),
            if 0 <= f.expr.0 < parent { free_vars(p, f.expr.0 as int, depth) } else { 0 },
        )
    }
}

/// The number of environment slots that the expression `expr_id` refers to
/// beyond the `depth` innermost binders.
pub fn count_free_vars(expr_pool: &Pools, expr_id: ExprId, depth: usize) -> (r: usize)
    requires
        expr_pool.wf(),
        expr_pool.valid_expr(expr_id),
        1 <= depth,
        depth + expr_id.0 < usize::MAX,
    ensures
        r as int == free_vars(*expr_pool, expr_id.0 as int, depth as int),
    decreases expr_id.0, 1nat, 0nat,
{
    let ghost e = expr_id.0 as int;
    assert(expr_pool.expr_node_ok(expr_pool.exprs@[e], e));
    match expr_pool.get_expr(expr_id) {
        Expr::Var(debruijn_index, _, _) => {
            let idx = debruijn_index.index();
            if idx < depth {
                0
            } else {
                idx - depth + 1
            }
        },
        Expr::GlobalVar(..) | Expr::Int(..) | Expr::String(..) | Expr::Unit(..) => 0,
        Expr::Call(func_id, arg_id, _) => {
            let func_free = count_free_vars(expr_pool, func_id, depth);
            let arg_free = count_free_vars(expr_pool, arg_id, depth);
            if func_free >= arg_free { func_free } else { arg_free }
        },
        Expr::Lambda(body_id, _, _) => count_free_vars(expr_pool, body_id, depth + 1),
        Expr::Let(value_id, body_id, _, _) => {
            let value_free = count_free_vars(expr_pool, value_id, depth);
            let body_free = count_free_vars(expr_pool, body_id, depth + 1);
            if value_free >= body_free { value_free } else { body_free }
        },
        Expr::Construct(_, arg_id, _) => count_free_vars(expr_pool, arg_id, depth),
        Expr::Match(scrutinee, _, _) => count_free_vars(expr_pool, scrutinee, depth),
        Expr::Record(start, len, _) => count_free_vars_fields(expr_pool, expr_id, start.0, len, depth),
        Expr::Project(record_id, _, _) => count_free_vars(expr_pool, record_id, depth),
        Expr::Extend(record_id, start, len, _) => {
            let record_free = count_free_vars(expr_pool, record_id, depth);
            let field_free = count_free_vars_fields(expr_pool, expr_id, start.0, len, depth);
            if record_free >= field_free { record_free } else { field_free }
        },
        Expr::Ffi(_, _, arg_expr, _) => {
            match arg_expr {
                Some(arg_id) => count_free_vars(expr_pool, arg_id, depth),
                None => 0,
            }
        },
    }
}

/// The largest count over the first `n` fields of the run at `start`.
fn count_free_vars_fields(expr_pool: &Pools, parent: ExprId, start: usize, n: usize, depth: usize) -> (r: usize)
    requires
        expr_pool.wf(),
        expr_pool.valid_expr(parent),
        expr_pool.fields_below(start as int, n as int, parent.0 as int),
        1 <= depth,
        depth + parent.0 < usize::MAX,
    ensures
        r as int == free_vars_fields(*expr_pool, parent.0 as int, start as int, n as int, depth as int),
    decreases parent.0, 0nat, n,
{
    if n == 0 {
        0
    } else {
        let rest = count_free_vars_fields(expr_pool, parent, start, n - 1, depth);
        assert(expr_pool.record_fields@.len() == expr_pool.record_fields.len());
        let f = expr_pool.record_fields[start + (n - 1)];
        let here = count_free_vars(expr_pool, f.expr, depth);
        if rest >= here { rest } else { here }
    }
}

// ----- pattern matching ----------------------------------------------------

/// What matching `value` against `pattern` gives: the values bound by the
/// pattern, `None` when it does not match, or an error for record patterns.
/// A constructor pattern with no argument patterns matches a constructor value
/// holding exactly one unit; one with `n` argument patterns matches a value of
/// that constructor holding exactly `n` values and binds them in order.
pub open spec fn match_pattern(pattern: Pattern, value: PooledValue) -> Result<Option<Seq<PooledValue>>, EvalError> {
    match pattern {
        Pattern::Constructor(name, _, length, _) => match value {
            PooledValue::Constructor(vname, args) => if name != vname {
                Ok(None)
            } else if length == 0 {
                if list_seq(args).len() == 1 && list_seq(args)[0] is Unit {
                    Ok(Some(Seq::empty()))
                } else {
                    Ok(None)
                }
            } else if list_seq(args).len() == length {
                Ok(Some(list_seq(args)))
            } else {
                Ok(None)
            },
            _ => Ok(None),
        },
        Pattern::Variable(..) => Ok(Some(seq![value])),
        Pattern::Wildcard(_) => Ok(Some(Seq::empty())),
        Pattern::Int(n, _) => match value {
            PooledValue::Int(m) => if n == m {
                Ok(Some(Seq::empty()))
            } else {
                Ok(None)
            },
            _ => Ok(None),
        },
        Pattern::String(s, _) => match value {
            PooledValue::String(t) => if s == t {
                Ok(Some(Seq::empty()))
            } else {
                Ok(None)
            },
            _ => Ok(None),
        },
        Pattern::Record(..) => Err(EvalError::RecordPattern),
    }
}

/// Matches `value` against `pattern`, giving the values the pattern binds.
pub fn try_match_pattern(pattern: Pattern, value: &PooledValue) -> (r: Result<Option<Vec<PooledValue>>, EvalError>)
    ensures
        match (r, match_pattern(pattern, *value)) {
            (Ok(Some(b)), Ok(Some(s))) => b@ == s,
            (Ok(None), Ok(None)) => true,
            (Err(x), Err(y)) => x == y,
            _ => false,
        },
        pattern matches Pattern::String(s, _) ==> (r matches Ok(o) && (o is Some <==> *value == PooledValue::String(s))
            && (o matches Some(b) ==> b@.len() == 0)),
        pattern matches Pattern::Int(n, _) ==> (r matches Ok(o) && (o is Some <==> *value == PooledValue::Int(n))
            && (o matches Some(b) ==> b@.len() == 0)),
{
    match pattern {
        Pattern::Constructor(constructor_name, _, length, _) => match value {
            PooledValue::Constructor(value_constructor, arg_list) => {
                if constructor_name != *value_constructor {
                    return Ok(None);
                }
                let mut arg_vals: Vec<PooledValue> = Vec::new();
                arg_list.push_into(&mut arg_vals);
                assert(arg_vals@ =~= list_seq(*arg_list));
                if length == 0 {
                    if arg_vals.len() == 1 {
                        match &arg_vals[0] {
                            PooledValue::Unit => Ok(Some(Vec::new())),
                            _ => Ok(None),
                        }
                    } else {
                        Ok(None)
                    }
                } else if arg_vals.len() == length {
                    Ok(Some(arg_vals))
                } else {
                    Ok(None)
                }
            },
            _ => Ok(None),
        },
        Pattern::Variable(..) => {
            let mut b: Vec<PooledValue> = Vec::new();
            b.push(value.copy());
            assert(b@ =~= seq![*value]);
            Ok(Some(b))
        },
        Pattern::Wildcard(_) => Ok(Some(Vec::new())),
        Pattern::Int(pattern_int, _) => match value {
            PooledValue::Int(value_int) => {
                if pattern_int == *value_int {
                    Ok(Some(Vec::new()))
                } else {
                    Ok(None)
                }
            },
            _ => Ok(None),
        },
        Pattern::String(pattern_str, _) => match value {
            PooledValue::String(value_str) => {
                if pattern_str == *value_str {
                    Ok(Some(Vec::new()))
                } else {
                    Ok(None)
                }
            },
            _ => Ok(None),
        },
        Pattern::Record(..) => Err(EvalError::RecordPattern),
    }
}

// ----- evaluation ----------------------------------------------------------

/// A match tries its arms in order: an arm whose string pattern is the matched string is
/// taken, binding nothing, and an arm whose string pattern is another string passes the
/// value on to the next arm.
pub proof fn lemma_string_arm(
    p: Pools,
    arms: MatchArms,
    i: int,
    t: InternedString,
    env: Seq<PooledValue>,
    g: Seq<(InternedString, PooledValue)>,
    fuel: nat,
)
    requires
        0 <= i < arms.length,
        arms.start_id.0 + arms.length <= p.patterns@.len(),
        p.patterns@[arms.start_id.0 + i].pattern is String,
    ensures
        p.patterns@[arms.start_id.0 + i].pattern matches Pattern::String(s, _) && s == t ==> match_arms_spec(
            p,
            arms,
            i,
            PooledValue::String(t),
            env,
            g,
            fuel,
        ) == eval_spec(p, p.patterns@[arms.start_id.0 + i].body, env, g, fuel),
        p.patterns@[arms.start_id.0 + i].pattern matches Pattern::String(s, _) && s != t ==> match_arms_spec(
            p,
            arms,
            i,
            PooledValue::String(t),
            env,
            g,
            fuel,
        ) == match_arms_spec(p, arms, i + 1, PooledValue::String(t), env, g, fuel),
{
    assert(env + Seq::<PooledValue>::empty() =~= env);
}

/// The environment a closure over `env` keeps when its body needs `k` slots:
/// the last `k` values, or none when `env` has fewer.
pub open spec fn kept_env(env: Seq<PooledValue>, k: int) -> Seq<PooledValue> {
    if k > 0 && env.len() >= k {
        env.subrange(env.len() - k, env.len() as int)
    } else {
        Seq::empty()
    }
}

/// The value of expression `e` under the local values `env` (the last one is
/// De Bruijn index 0) and the globals `g`, evaluating at most `fuel` levels deep.
pub open spec fn eval_spec(
    p: Pools,
    e: ExprId,
    env: Seq<PooledValue>,
    g: Seq<(InternedString, PooledValue)>,
    fuel: nat,
) -> Result<PooledValue, EvalError>
    decreases fuel, 0nat, 0nat,
{
    if fuel == 0 || e.0 >= p.exprs@.len() {
        Err(EvalError::DepthExceeded)
    } else {
        let f1 = (fuel - 1) as nat;
        match p.exprs@[e.0 as int] {
            Expr::Int(n, _) => Ok(PooledValue::Int(n)),
            Expr::String(s, _) => Ok(PooledValue::String(s)),
            Expr::Unit(_) => Ok(PooledValue::Unit),
            Expr::Var(i, name, _) => if (i.0 as int) < env.len() {
                Ok(env[env.len() - 1 - i.0])
            } else {
                Err(EvalError::UnboundVariable(name, i.0))
            },
            Expr::GlobalVar(_, name, _) => match assoc_get(g, name) {
                Some(v) => Ok(v),
                None => Err(EvalError::UnboundGlobal(name)),
            },
            Expr::Lambda(body, param, _) => {
                let k = free_vars(p, body.0 as int, 1);
                Ok(
                    PooledValue::Function(
                        Box::new(
                            HOASFunction {
                                kind: FunctionKind::Closure,
                                param,
                                body_id: body,
                                captured_env: if k > 0 && env.len() >= k {
                                    list_from(env, env.len() - k)
                                } else {
                                    ValueList::Nil
                                },
                                captured_globals: fields_from(g, 0),
                            },
                        ),
                    ),
                )
            },
            Expr::Let(v, b, _, _) => match eval_spec(p, v, env, g, f1) {
                Err(x) => Err(x),
                Ok(val) => eval_spec(p, b, kept_env(env, free_vars(p, b.0 as int, 1)).push(val), g, f1),
            },
            Expr::Call(fe, ae, _) => match eval_spec(p, fe, env, g, f1) {
                Err(x) => Err(x),
                Ok(fv) => match eval_spec(p, ae, env, g, f1) {
                    Err(x) => Err(x),
                    Ok(av) => match fv {
                        PooledValue::Function(h) => apply_spec(p, *h, av, f1),
                        PooledValue::Constructor(n, args) => Ok(PooledValue::Constructor(n, list_push(args, av))),
                        _ => Err(EvalError::NotAFunction),
                    },
                },
            },
            Expr::Construct(c, a, _) => match eval_spec(p, a, env, g, f1) {
                Err(x) => Err(x),
                Ok(av) => Ok(PooledValue::Constructor(c, ValueList::Cons(Box::new(av), Box::new(ValueList::Nil)))),
            },
            Expr::Match(x, arms, _) => match eval_spec(p, x, env, g, f1) {
                Err(err) => Err(err),
                Ok(mv) => match_arms_spec(p, arms, 0, mv, env, g, f1),
            },
            Expr::Record(start, len, _) => match record_spec(p, start.0 as int, len as int, 0, env, g, f1) {
                Err(x) => Err(x),
                Ok(fs) => Ok(PooledValue::Record(fs)),
            },
            Expr::Project(r, name, _) => match eval_spec(p, r, env, g, f1) {
                Err(x) => Err(x),
                Ok(rv) => match rv {
                    PooledValue::Record(fs) => match fields_get(fs, name) {
                        Some(v) => Ok(v),
                        None => Err(EvalError::MissingField(name)),
                    },
                    _ => Err(EvalError::ProjectNonRecord),
                },
            },
            Expr::Extend(r, start, len, _) => match eval_spec(p, r, env, g, f1) {
                Err(x) => Err(x),
                Ok(rv) => match rv {
                    PooledValue::Record(fs) => extend_spec(p, start.0 as int, len as int, 0, fs, env, g, f1),
                    _ => Err(EvalError::ExtendNonRecord),
                },
            },
            Expr::Ffi(..) => Err(EvalError::ForeignCode),
        }
    }
}

/// The result of applying function `f` to `arg`.
pub open spec fn apply_spec(p: Pools, f: HOASFunction, arg: PooledValue, fuel: nat) -> Result<PooledValue, EvalError>
    decreases fuel, 1nat, 0nat,
{
    match f.kind {
        FunctionKind::Closure => eval_spec(
            p,
            f.body_id,
            list_seq(f.captured_env).push(arg),
            fields_seq(f.captured_globals),
            fuel,
        ),
        FunctionKind::Recursive(name, vs, gs) => match eval_spec(
            p,
            f.body_id,
            list_seq(vs),
            assoc_put(fields_seq(gs), name, PooledValue::Function(Box::new(f))),
            fuel,
        ) {
            Err(x) => Err(x),
            Ok(PooledValue::Function(h)) => if fuel == 0 {
                Err(EvalError::DepthExceeded)
            } else {
                apply_spec(p, *h, arg, (fuel - 1) as nat)
            },
            Ok(_) => Err(EvalError::ImplementationNotFunction),
        },
        FunctionKind::AddIntrinsic(y) => match arg {
            PooledValue::Int(x) => Ok(add_partial(x, y)),
            _ => Err(EvalError::AddFirstArgument),
        },
        FunctionKind::AddPartial(x) => match arg {
            PooledValue::Int(y) => if isize::MIN <= x + y <= isize::MAX {
                Ok(PooledValue::Int((x + y) as isize))
            } else {
                Err(EvalError::IntegerOverflow)
            },
            _ => Err(EvalError::AddSecondArgument),
        },
    }
}

/// The builtin `add` accepts integers only: a non-integer first or second argument is
/// refused with its own error, where a checked program never supplies one; two integers
/// give their sum unless it overflows.
pub proof fn lemma_add_needs_integers(p: Pools, f: HOASFunction, arg: PooledValue, fuel: nat)
    ensures
        f.kind is AddIntrinsic && !(arg is Int) ==> apply_spec(p, f, arg, fuel) == Err::<PooledValue, EvalError>(
            EvalError::AddFirstArgument,
        ),
        f.kind is AddPartial && !(arg is Int) ==> apply_spec(p, f, arg, fuel) == Err::<PooledValue, EvalError>(
            EvalError::AddSecondArgument,
        ),
        f.kind matches FunctionKind::AddPartial(x) ==> (arg matches PooledValue::Int(y) ==> (isize::MIN <= x + y <= isize::MAX
            ==> apply_spec(p, f, arg, fuel) == Ok::<PooledValue, EvalError>(PooledValue::Int((x + y) as isize)))),
{
}

/// `add` applied to `x`: a function of `y` that keeps `x` as its one
/// environment value.
pub open spec fn add_partial(x: isize, y: InternedString) -> PooledValue {
    PooledValue::Function(
        Box::new(
            HOASFunction {
                kind: FunctionKind::AddPartial(x),
                param: y,
                body_id: ExprId(0),
                captured_env: ValueList::Cons(Box::new(PooledValue::Int(x)), Box::new(ValueList::Nil)),
                captured_globals: FieldList::Nil,
            },
        ),
    )
}

/// The fields `i..len` of the record literal at `start`, evaluated in order.
pub open spec fn record_spec(
    p: Pools,
    start: int,
    len: int,
    i: int,
    env: Seq<PooledValue>,
    g: Seq<(InternedString, PooledValue)>,
    fuel: nat,
) -> Result<FieldList, EvalError>
    decreases fuel, 1nat, len - i,
{
    if i >= len || i < 0 || start < 0 || start + len > p.record_fields@.len() {
        Ok(FieldList::Nil)
    } else {
        let f = p.record_fields@[start + i];
        match eval_spec(p, f.expr, env, g, fuel) {
            Err(x) => Err(x),
            Ok(v) => match record_spec(p, start, len, i + 1, env, g, fuel) {
                Err(x) => Err(x),
                Ok(rest) => Ok(FieldList::Cons(f.name, Box::new(v), Box::new(rest))),
            },
        }
    }
}

/// The record `acc` extended with the fields `i..len` of the run at `start`,
/// evaluated in order; a field already present is replaced in place.
pub open spec fn extend_spec(
    p: Pools,
    start: int,
    len: int,
    i: int,
    acc: FieldList,
    env: Seq<PooledValue>,
    g: Seq<(InternedString, PooledValue)>,
    fuel: nat,
) -> Result<PooledValue, EvalError>
    decreases fuel, 1nat, len - i,
{
    if i >= len || i < 0 || start < 0 || start + len > p.record_fields@.len() {
        Ok(PooledValue::Record(acc))
    } else {
        let f = p.record_fields@[start + i];
        match eval_spec(p, f.expr, env, g, fuel) {
            Err(x) => Err(x),
            Ok(v) => extend_spec(p, start, len, i + 1, fields_put(acc, f.name, v), env, g, fuel),
        }
    }
}

/// The value of the first of the cases `i..` of `arms` whose pattern matches
/// `mv`, its body evaluated with the bound values added to `env`.
pub open spec fn match_arms_spec(
    p: Pools,
    arms: MatchArms,
    i: int,
    mv: PooledValue,
    env: Seq<PooledValue>,
    g: Seq<(InternedString, PooledValue)>,
    fuel: nat,
) -> Result<PooledValue, EvalError>
    decreases fuel, 1nat, arms.length - i,
{
    if i >= arms.length || i < 0 || arms.start_id.0 + arms.length > p.patterns@.len() {
        Err(EvalError::NonExhaustiveMatch)
    } else {
        let case = p.patterns@[arms.start_id.0 + i];
        match match_pattern(case.pattern, mv) {
            Err(x) => Err(x),
            Ok(None) => match_arms_spec(p, arms, i + 1, mv, env, g, fuel),
            Ok(Some(b)) => eval_spec(p, case.body, env + b, g, fuel),
        }
    }
}

pub proof fn lemma_globals_put_ok(n: nat, s: Seq<(InternedString, PooledValue)>, k: InternedString, v: PooledValue)
    requires
        globals_ok(n, s),
        value_ok(n, v),
    ensures
        globals_ok(n, assoc_put(s, k, v)),
{
    lemma_assoc_index(s, k);
    let t = assoc_put(s, k, v);
    assert forall|j: int| 0 <= j < t.len() implies #[trigger] value_ok(n, t[j].1) by {
        if j < s.len() && j != assoc_index(s, k) {
            assert(t[j] == s[j]);
        }
    }
}

/// The values of `env` from position `from` on.
fn env_suffix(env: &Vec<PooledValue>, from: usize) -> (r: Vec<PooledValue>)
    requires
        from <= env.len(),
    ensures
        r@ == env@.subrange(from as int, env@.len() as int),
{
    let mut r: Vec<PooledValue> = Vec::new();
    let mut j: usize = from;
    while j < env.len()
        invariant
            from <= j <= env.len(),
            r@ == env@.subrange(from as int, j as int),
        decreases env.len() - j,
    {
        r.push(env[j].copy());
        j = j + 1;
        assert(r@ =~= env@.subrange(from as int, j as int));
    }
    r
}

/// Evaluates `expr_id` under the local values `env` and the globals.
fn eval_hoas(
    expr_pool: &Pools,
    expr_id: ExprId,
    env: &Vec<PooledValue>,
    globals: &Vec<(InternedString, PooledValue)>,
    fuel: usize,
) -> (r: Result<PooledValue, EvalError>)
    requires
        expr_pool.wf(),
        expr_pool.valid_expr(expr_id),
        values_ok(expr_pool.exprs@.len(), env@),
        globals_ok(expr_pool.exprs@.len(), globals@),
    ensures
        r == eval_spec(*expr_pool, expr_id, env@, globals@, fuel as nat),
        r matches Ok(v) ==> value_ok(expr_pool.exprs@.len(), v),
    decreases fuel, 0nat, 0nat,
{
    if fuel == 0 {
        return Err(EvalError::DepthExceeded);
    }
    let f1 = fuel - 1;
    let ghost n = expr_pool.exprs@.len();
    let ghost e = expr_id.0 as int;
    assert(expr_pool.expr_node_ok(expr_pool.exprs@[e], e));
    assert(expr_pool.exprs@.len() == expr_pool.exprs.len());
    match expr_pool.get_expr(expr_id) {
        Expr::Int(v, _) => Ok(PooledValue::Int(v)),
        Expr::String(s, _) => Ok(PooledValue::String(s)),
        Expr::Unit(_) => Ok(PooledValue::Unit),
        Expr::Var(debruijn_index, name, _) => {
            let idx = debruijn_index.index();
            if idx < env.len() {
                let v = env[env.len() - 1 - idx].copy();
                assert(value_ok(n, env@[env@.len() - 1 - idx]));
                Ok(v)
            } else {
                Err(EvalError::UnboundVariable(name, idx))
            }
        },
        Expr::GlobalVar(_, name, _) => {
            proof {
                lemma_assoc_index(globals@, name);
            }
            match assoc_find(globals, name) {
                Some(i) => {
                    assert(value_ok(n, globals@[i as int].1));
                    Ok(globals[i].1.copy())
                },
                None => Err(EvalError::UnboundGlobal(name)),
            }
        },
        Expr::Lambda(body_id, param_name, _) => {
            let free_count = count_free_vars(expr_pool, body_id, 1);
            let captured_env = if free_count > 0 && env.len() >= free_count {
                proof {
                    lemma_list_from_ok(n, env@, env@.len() - free_count);
                }
                list_from_vec(env, env.len() - free_count)
            } else {
                ValueList::Nil
            };
            let captured_globals = fields_from_vec(globals, 0);
            proof {
                lemma_fields_from_ok(n, globals@, 0);
                assert(list_ok(n, ValueList::Nil));
            }
            Ok(
                PooledValue::Function(
                    Box::new(
                        HOASFunction {
                            kind: FunctionKind::Closure,
                            param: param_name,
                            body_id,
                            captured_env,
                            captured_globals,
                        },
                    ),
                ),
            )
        },
        Expr::Let(value_id, body_id, _, _) => {
            let value_val = match eval_hoas(expr_pool, value_id, env, globals, f1) {
                Ok(v) => v,
                Err(x) => return Err(x),
            };
            let free_count = count_free_vars(expr_pool, body_id, 1);
            let mut new_env = if free_count > 0 && env.len() >= free_count {
                env_suffix(env, env.len() - free_count)
            } else {
                Vec::new()
            };
            let ghost kept = new_env@;
            assert(kept == kept_env(env@, free_count as int));
            new_env.push(value_val);
            assert(values_ok(n, new_env@)) by {
                assert forall|i: int| 0 <= i < new_env@.len() implies #[trigger] value_ok(n, new_env@[i]) by {
                    if i < kept.len() {
                        assert(new_env@[i] == env@[env@.len() - free_count + i]);
                    }
                }
            }
            eval_hoas(expr_pool, body_id, &new_env, globals, f1)
        },
        Expr::Call(func_id, arg_id, _) => {
            let func_val = match eval_hoas(expr_pool, func_id, env, globals, f1) {
                Ok(v) => v,
                Err(x) => return Err(x),
            };
            let arg_val = match eval_hoas(expr_pool, arg_id, env, globals, f1) {
                Ok(v) => v,
                Err(x) => return Err(x),
            };
            match func_val {
                PooledValue::Function(f) => apply_function(expr_pool, &f, arg_val, f1),
                PooledValue::Constructor(name, args) => {
                    proof {
                        lemma_list_push_ok(n, args, arg_val);
                    }
                    Ok(PooledValue::Constructor(name, args.push_back(arg_val)))
                },
                _ => Err(EvalError::NotAFunction),
            }
        },
        Expr::Construct(constructor, arg_id, _) => {
            let arg_val = match eval_hoas(expr_pool, arg_id, env, globals, f1) {
                Ok(v) => v,
                Err(x) => return Err(x),
            };
            let args = ValueList::Cons(Box::new(arg_val), Box::new(ValueList::Nil));
            assert(list_ok(n, ValueList::Nil));
            assert(list_ok(n, args));
            Ok(PooledValue::Constructor(constructor, args))
        },
        Expr::Match(scrutinee, match_arms, _) => {
            let match_val = match eval_hoas(expr_pool, scrutinee, env, globals, f1) {
                Ok(v) => v,
                Err(x) => return Err(x),
            };
            eval_match_arms(expr_pool, match_arms, 0, &match_val, env, globals, f1)
        },
        Expr::Record(start, len, _) => {
            match eval_record_fields(expr_pool, start.0, len, 0, env, globals, f1) {
                Ok(fields) => Ok(PooledValue::Record(fields)),
                Err(x) => Err(x),
            }
        },
        Expr::Project(record_id, field_name, _) => {
            let record_value = match eval_hoas(expr_pool, record_id, env, globals, f1) {
                Ok(v) => v,
                Err(x) => return Err(x),
            };
            match record_value {
                PooledValue::Record(fields) => {
                    proof {
                        lemma_fields_get_ok(n, fields, field_name);
                    }
                    match fields.get(field_name) {
                        Some(v) => Ok(v),
                        None => Err(EvalError::MissingField(field_name)),
                    }
                },
                _ => Err(EvalError::ProjectNonRecord),
            }
        },
        Expr::Extend(record_id, start, len, _) => {
            let base_record = match eval_hoas(expr_pool, record_id, env, globals, f1) {
                Ok(v) => v,
                Err(x) => return Err(x),
            };
            match base_record {
                PooledValue::Record(base_fields) => eval_extend_fields(
                    expr_pool,
                    start.0,
                    len,
                    0,
                    base_fields,
                    env,
                    globals,
                    f1,
                ),
                _ => Err(EvalError::ExtendNonRecord),
            }
        },
        Expr::Ffi(..) => Err(EvalError::ForeignCode),
    }
}

/// Applies function `f` to `arg`.
fn apply_function(expr_pool: &Pools, f: &HOASFunction, arg: PooledValue, fuel: usize) -> (r: Result<PooledValue, EvalError>)
    requires
        expr_pool.wf(),
        value_ok(expr_pool.exprs@.len(), PooledValue::Function(Box::new(*f))),
        value_ok(expr_pool.exprs@.len(), arg),
    ensures
        r == apply_spec(*expr_pool, *f, arg, fuel as nat),
        r matches Ok(v) ==> value_ok(expr_pool.exprs@.len(), v),
    decreases fuel, 1nat, 0nat,
{
    let ghost n = expr_pool.exprs@.len();
    match &f.kind {
        FunctionKind::Closure => {
            let mut new_env: Vec<PooledValue> = Vec::new();
            f.captured_env.push_into(&mut new_env);
            new_env.push(arg);
            let mut g: Vec<(InternedString, PooledValue)> = Vec::new();
            f.captured_globals.push_into(&mut g);
            proof {
                assert(new_env@ =~= list_seq(f.captured_env).push(arg));
                assert(g@ =~= fields_seq(f.captured_globals));
                lemma_list_seq_ok(n, f.captured_env);
                lemma_fields_seq_ok(n, f.captured_globals);
                assert(values_ok(n, new_env@)) by {
                    assert forall|i: int| 0 <= i < new_env@.len() implies #[trigger] value_ok(n, new_env@[i]) by {
                        if i < list_seq(f.captured_env).len() {
                            assert(new_env@[i] == list_seq(f.captured_env)[i]);
                        }
                    }
                }
            }
            eval_hoas(expr_pool, f.body_id, &new_env, &g, fuel)
        },
        FunctionKind::Recursive(name, vs, gs) => {
            let mut new_env: Vec<PooledValue> = Vec::new();
            vs.push_into(&mut new_env);
            let mut g: Vec<(InternedString, PooledValue)> = Vec::new();
            gs.push_into(&mut g);
            let me = PooledValue::Function(Box::new(f.copy()));
            proof {
                assert(new_env@ =~= list_seq(*vs));
                assert(g@ =~= fields_seq(*gs));
                lemma_list_seq_ok(n, *vs);
                lemma_fields_seq_ok(n, *gs);
                lemma_globals_put_ok(n, g@, *name, me);
            }
            assoc_insert(&mut g, *name, me);
            match eval_hoas(expr_pool, f.body_id, &new_env, &g, fuel) {
                Err(x) => Err(x),
                Ok(PooledValue::Function(h)) => {
                    if fuel == 0 {
                        Err(EvalError::DepthExceeded)
                    } else {
                        apply_function(expr_pool, &h, arg, fuel - 1)
                    }
                },
                Ok(_) => Err(EvalError::ImplementationNotFunction),
            }
        },
        FunctionKind::AddIntrinsic(y) => match arg {
            PooledValue::Int(x) => {
                let captured_env = ValueList::Cons(Box::new(PooledValue::Int(x)), Box::new(ValueList::Nil));
                assert(list_ok(n, ValueList::Nil));
                assert(value_ok(n, PooledValue::Int(x)));
                assert(list_ok(n, captured_env));
                assert(fields_ok(n, FieldList::Nil));
                Ok(
                    PooledValue::Function(
                        Box::new(
                            HOASFunction {
                                kind: FunctionKind::AddPartial(x),
                                param: *y,
                                body_id: ExprId(0),
                                captured_env,
                                captured_globals: FieldList::Nil,
                            },
                        ),
                    ),
                )
            },
            _ => Err(EvalError::AddFirstArgument),
        },
        FunctionKind::AddPartial(x) => match arg {
            PooledValue::Int(y) => match x.checked_add(y) {
                Some(sum) => Ok(PooledValue::Int(sum)),
                None => Err(EvalError::IntegerOverflow),
            },
            _ => Err(EvalError::AddSecondArgument),
        },
    }
}

/// Evaluates the fields `i..len` of the record literal at `start`.
fn eval_record_fields(
    expr_pool: &Pools,
    start: usize,
    len: usize,
    i: usize,
    env: &Vec<PooledValue>,
    globals: &Vec<(InternedString, PooledValue)>,
    fuel: usize,
) -> (r: Result<FieldList, EvalError>)
    requires
        expr_pool.wf(),
        start + len <= expr_pool.record_fields@.len(),
        forall|k: int| start <= k < start + len ==> (#[trigger] expr_pool.record_fields@[k]).expr.0 < expr_pool.exprs@.len(),
        values_ok(expr_pool.exprs@.len(), env@),
        globals_ok(expr_pool.exprs@.len(), globals@),
    ensures
        r == record_spec(*expr_pool, start as int, len as int, i as int, env@, globals@, fuel as nat),
        r matches Ok(fs) ==> fields_ok(expr_pool.exprs@.len(), fs),
    decreases fuel, 1nat, len - i,
{
    if i >= len {
        return Ok(FieldList::Nil);
    }
    assert(expr_pool.record_fields@.len() == expr_pool.record_fields.len());
    let field = expr_pool.record_fields[start + i];
    let v = match eval_hoas(expr_pool, field.expr, env, globals, fuel) {
        Ok(v) => v,
        Err(x) => return Err(x),
    };
    match eval_record_fields(expr_pool, start, len, i + 1, env, globals, fuel) {
        Ok(rest) => Ok(FieldList::Cons(field.name, Box::new(v), Box::new(rest))),
        Err(x) => Err(x),
    }
}

/// Extends `acc` with the fields `i..len` of the run at `start`.
fn eval_extend_fields(
    expr_pool: &Pools,
    start: usize,
    len: usize,
    i: usize,
    acc: FieldList,
    env: &Vec<PooledValue>,
    globals: &Vec<(InternedString, PooledValue)>,
    fuel: usize,
) -> (r: Result<PooledValue, EvalError>)
    requires
        expr_pool.wf(),
        start + len <= expr_pool.record_fields@.len(),
        forall|k: int| start <= k < start + len ==> (#[trigger] expr_pool.record_fields@[k]).expr.0 < expr_pool.exprs@.len(),
        fields_ok(expr_pool.exprs@.len(), acc),
        values_ok(expr_pool.exprs@.len(), env@),
        globals_ok(expr_pool.exprs@.len(), globals@),
    ensures
        r == extend_spec(*expr_pool, start as int, len as int, i as int, acc, env@, globals@, fuel as nat),
        r matches Ok(v) ==> value_ok(expr_pool.exprs@.len(), v),
    decreases fuel, 1nat, len - i,
{
    if i >= len {
        return Ok(PooledValue::Record(acc));
    }
    assert(expr_pool.record_fields@.len() == expr_pool.record_fields.len());
    let field = expr_pool.record_fields[start + i];
    let v = match eval_hoas(expr_pool, field.expr, env, globals, fuel) {
        Ok(v) => v,
        Err(x) => return Err(x),
    };
    proof {
        lemma_fields_put_ok(expr_pool.exprs@.len(), acc, field.name, v);
    }
    eval_extend_fields(expr_pool, start, len, i + 1, acc.put(field.name, v), env, globals, fuel)
}

/// Evaluates the first of the cases `i..` of `arms` whose pattern matches `match_val`.
fn eval_match_arms(
    expr_pool: &Pools,
    arms: MatchArms,
    i: usize,
    match_val: &PooledValue,
    env: &Vec<PooledValue>,
    globals: &Vec<(InternedString, PooledValue)>,
    fuel: usize,
) -> (r: Result<PooledValue, EvalError>)
    requires
        expr_pool.wf(),
        arms.start_id.0 + arms.length <= expr_pool.patterns@.len(),
        value_ok(expr_pool.exprs@.len(), *match_val),
        values_ok(expr_pool.exprs@.len(), env@),
        globals_ok(expr_pool.exprs@.len(), globals@),
    ensures
        r == match_arms_spec(*expr_pool, arms, i as int, *match_val, env@, globals@, fuel as nat),
        r matches Ok(v) ==> value_ok(expr_pool.exprs@.len(), v),
    decreases fuel, 1nat, arms.length - i,
{
    let ghost n = expr_pool.exprs@.len();
    if i >= arms.length {
        return Err(EvalError::NonExhaustiveMatch);
    }
    assert(expr_pool.patterns@.len() == expr_pool.patterns.len());
    let case = expr_pool.get_pattern_case(PatternId(arms.start_id.0 + i));
    match try_match_pattern(case.pattern, match_val) {
        Err(x) => Err(x),
        Ok(None) => eval_match_arms(expr_pool, arms, i + 1, match_val, env, globals, fuel),
        Ok(Some(bindings)) => {
            let mut new_env = copy_values(env);
            let ghost before = new_env@;
            let mut k: usize = 0;
            while k < bindings.len()
                invariant
                    k <= bindings.len(),
                    new_env@ == before + bindings@.subrange(0, k as int),
                decreases bindings.len() - k,
            {
                new_env.push(bindings[k].copy());
                k = k + 1;
                assert(new_env@ =~= before + bindings@.subrange(0, k as int));
            }
            assert(bindings@.subrange(0, bindings@.len() as int) =~= bindings@);
            proof {
                assert(values_ok(n, bindings@)) by {
                    match case.pattern {
                        Pattern::Constructor(..) => {
                            match *match_val {
                                PooledValue::Constructor(_, args) => {
                                    lemma_list_seq_ok(n, args);
                                },
                                _ => {},
                            }
                        },
                        _ => {},
                    }
                }
                assert(values_ok(n, new_env@)) by {
                    assert forall|j: int| 0 <= j < new_env@.len() implies #[trigger] value_ok(n, new_env@[j]) by {
                        if j < before.len() {
                            assert(new_env@[j] == env@[j]);
                        } else {
                            assert(new_env@[j] == bindings@[j - before.len()]);
                        }
                    }
                }
                assert(expr_pool.patterns@[arms.start_id.0 + i] == case);
            }
            eval_hoas(expr_pool, case.body, &new_env, globals, fuel)
        },
    }
}

// ----- rendering -----------------------------------------------------------

/// How a value is shown: integers in decimal, strings quoted, functions as
/// `λparam.body` with the body's captured variables replaced by their values,
/// constructors as their name followed by their values (or by `()` when they
/// hold none), records as `{name: value, ...}`.
pub open spec fn value_text(p: Pools, v: PooledValue) -> Seq<char>
    decreases v, 0nat,
{
    match v {
        PooledValue::Int(n) => int_text(n as int),
        PooledValue::String(s) => seq!['"'] + p.interner.text_of(s) + seq!['"'],
        PooledValue::Unit => seq!['(', ')'],
        PooledValue::Function(f) => seq!['λ'] + p.interner.text_of(f.param) + seq!['.'] + if f.body_id.0
            < p.exprs@.len() {
            subst_text(p, f.body_id.0 as int, list_texts(p, f.captured_env), field_texts(p, f.captured_globals))
        } else {
            Seq::empty()
        },
        PooledValue::Constructor(name, l) => p.interner.text_of(name) + match l {
            ValueList::Nil => seq![' ', '(', ')'],
            _ => spaced_text(p, l),
        },
        PooledValue::Record(fs) => seq!['{'] + fields_text(p, fs) + seq!['}'],
    }
}

/// Each value of the list preceded by a space.
pub open spec fn spaced_text(p: Pools, l: ValueList) -> Seq<char>
    decreases l, 0nat,
{
    match l {
        ValueList::Nil => Seq::empty(),
        ValueList::Cons(h, t) => seq![' '] + value_text(p, *h) + spaced_text(p, *t),
    }
}

/// The fields as `name: value` separated by `, `.
pub open spec fn fields_text(p: Pools, l: FieldList) -> Seq<char>
    decreases l, 0nat,
{
    match l {
        FieldList::Nil => Seq::empty(),
        FieldList::Cons(k, v, t) => p.interner.text_of(k) + seq![':', ' '] + value_text(p, *v) + match *t {
            FieldList::Nil => Seq::<char>::empty(),
            _ => seq![',', ' '] + fields_text(p, *t),
        },
    }
}

/// The rendering of each value of the list.
pub open spec fn list_texts(p: Pools, l: ValueList) -> Seq<Seq<char>>
    decreases l, 0nat,
{
    match l {
        ValueList::Nil => Seq::empty(),
        ValueList::Cons(h, t) => seq![value_text(p, *h)] + list_texts(p, *t),
    }
}

/// Each name with the rendering of its value.
pub open spec fn field_texts(p: Pools, l: FieldList) -> Seq<(InternedString, Seq<char>)>
    decreases l, 0nat,
{
    match l {
        FieldList::Nil => Seq::empty(),
        FieldList::Cons(k, v, t) => seq![(k, value_text(p, *v))] + field_texts(p, *t),
    }
}

/// Expression `e` in surface syntax, where a variable of index `i > 0` that
/// falls inside `env` shows as `env[len - i]`, a global shows as the first
/// rendering bound to its name in `gl`, and a `match` shows only its scrutinee.
pub open spec fn subst_text(p: Pools, e: int, env: Seq<Seq<char>>, gl: Seq<(InternedString, Seq<char>)>) -> Seq<char>
    decreases e, 1int, 0int,
{
    if e < 0 || e >= p.exprs@.len() {
        Seq::empty()
    } else {
        match p.exprs@[e] {
            Expr::Int(n, _) => int_text(n as int),
            Expr::String(s, _) => seq!['"'] + p.interner.text_of(s) + seq!['"'],
            Expr::Unit(_) => seq!['(', ')'],
            Expr::Var(i, name, _) => if i.0 == 0 {
                p.interner.text_of(name)
            } else if i.0 - 1 < env.len() {
                env[env.len() - i.0]
            } else {
                p.interner.text_of(name)
            },
            Expr::GlobalVar(_, name, _) => match assoc_get(gl, name) {
                Some(t) => t,
                None => p.interner.text_of(name),
            },
            Expr::Call(f, a, _) => (if f.0 < e { subst_text(p, f.0 as int, env, gl) } else { Seq::empty() })
                + seq![' '] + (if a.0 < e { subst_text(p, a.0 as int, env, gl) } else { Seq::empty() }),
            Expr::Lambda(b, param, _) => "fn "@ + p.interner.text_of(param) + " => "@ + (if b.0 < e {
                subst_text(p, b.0 as int, env, gl)
            } else {
                Seq::empty()
            }),
            Expr::Let(v, b, x, _) => "let "@ + p.interner.text_of(x) + " = "@ + (if v.0 < e {
                subst_text(p, v.0 as int, env, gl)
            } else {
                Seq::empty()
            }) + " in "@ + (if b.0 < e { subst_text(p, b.0 as int, env, gl) } else { Seq::empty() }),
            Expr::Construct(c, a, _) => p.interner.text_of(c) + seq![' '] + (if a.0 < e {
                subst_text(p, a.0 as int, env, gl)
            } else {
                Seq::empty()
            }),
            Expr::Match(x, _, _) => "match "@ + (if x.0 < e { subst_text(p, x.0 as int, env, gl) } else { Seq::empty() })
                + " with ..."@,
            Expr::Record(start, len, _) => seq!['{'] + subst_fields_text(p, e, start.0 as int, len as int, 0, env, gl)
                + seq!['}'],
            Expr::Project(r, f, _) => (if r.0 < e { subst_text(p, r.0 as int, env, gl) } else { Seq::empty() })
                + seq!['.'] + p.interner.text_of(f),
            Expr::Extend(r, start, len, _) => seq!['{'] + (if r.0 < e {
                subst_text(p, r.0 as int, env, gl)
            } else {
                Seq::empty()
            }) + " with "@ + subst_fields_text(p, e, start.0 as int, len as int, 0, env, gl) + seq!['}'],
            Expr::Ffi(code, _, arg, _) => match arg {
                Some(a) => "ffi!(<"@ + p.interner.text_of(code) + ">, "@ + (if a.0 < e {
                    subst_text(p, a.0 as int, env, gl)
                } else {
                    Seq::empty()
                }) + seq![')'],
                None => "ffi!(<"@ + p.interner.text_of(code) + ">)"@,
            },
        }
    }
}

/// The fields `i..len` of the run at `start` as `name: expr`, separated by `, `.
pub open spec fn subst_fields_text(
    p: Pools,
    parent: int,
    start: int,
    len: int,
    i: int,
    env: Seq<Seq<char>>,
    gl: Seq<(InternedString, Seq<char>)>,
) -> Seq<char>
    decreases parent, 0int, len - i,
{
    if i >= len || i < 0 || start < 0 || start + len > p.record_fields@.len() {
        Seq::empty()
    } else {
        let f = p.record_fields@[start + i];
        (if i > 0 { seq![',', ' '] } else { Seq::empty() }) + p.interner.text_of(f.name) + seq![':', ' '] + (if 0
            <= f.expr.0 < parent {
            subst_text(p, f.expr.0 as int, env, gl)
        } else {
            Seq::empty()
        }) + subst_fields_text(p, parent, start, len, i + 1, env, gl)
    }
}

impl PooledValue {
    /// Renders this value, showing functions with their captured values
    /// substituted into their bodies.
    pub fn display_with_pool(&self, expr_pool: &Pools) -> (r: String)
        requires
            expr_pool.wf(),
        ensures
            r@ == value_text(*expr_pool, *self),
    {
        let mut out: Vec<char> = Vec::new();
        self.fmt_value(expr_pool, &mut out);
        assert(out@ =~= value_text(*expr_pool, *self));
        chars_to_string(&out)
    }

    /// Appends the rendering of this value.
    pub fn fmt_value(&self, expr_pool: &Pools, out: &mut Vec<char>)
        requires
            expr_pool.wf(),
        ensures
            final(out)@ == old(out)@ + value_text(*expr_pool, *self),
        decreases *self, 0nat,
    {
        let ghost o = out@;
        match self {
            PooledValue::Int(n) => {
                push_isize(out, *n);
            },
            PooledValue::String(s) => {
                out.push('"');
                let t = expr_pool.name_chars(*s);
                push_chars(out, &t);
                out.push('"');
                assert(out@ =~= o + value_text(*expr_pool, *self));
            },
            PooledValue::Unit => {
                out.push('(');
                out.push(')');
                assert(out@ =~= o + value_text(*expr_pool, *self));
            },
            PooledValue::Function(f) => {
                out.push('λ');
                let t = expr_pool.name_chars(f.param);
                push_chars(out, &t);
                out.push('.');
                let ghost mid = out@;
                assert(expr_pool.exprs@.len() == expr_pool.exprs.len());
                if f.body_id.0 < expr_pool.exprs.len() {
                    let env_texts = value_list_texts(&f.captured_env, expr_pool);
                    let global_texts = value_field_texts(&f.captured_globals, expr_pool);
                    assert(env_texts@.map_values(|t: Vec<char>| t@) =~= list_texts(*expr_pool, f.captured_env));
                    assert(global_texts@.map_values(|g: (InternedString, Vec<char>)| (g.0, g.1@)) =~= field_texts(
                        *expr_pool,
                        f.captured_globals,
                    ));
                    substitute_in_expr(expr_pool, f.body_id, &env_texts, &global_texts, out);
                }
                assert(out@ =~= o + value_text(*expr_pool, *self));
            },
            PooledValue::Constructor(name, l) => {
                let t = expr_pool.name_chars(*name);
                push_chars(out, &t);
                match l {
                    ValueList::Nil => {
                        out.push(' ');
                        out.push('(');
                        out.push(')');
                    },
                    _ => {
                        fmt_spaced(l, expr_pool, out);
                    },
                }
                assert(out@ =~= o + value_text(*expr_pool, *self));
            },
            PooledValue::Record(fs) => {
                out.push('{');
                fmt_fields(fs, expr_pool, out);
                out.push('}');
                assert(out@ =~= o + value_text(*expr_pool, *self));
            },
        }
    }
}

/// Appends each value of the list preceded by a space.
fn fmt_spaced(l: &ValueList, expr_pool: &Pools, out: &mut Vec<char>)
    requires
        expr_pool.wf(),
    ensures
        final(out)@ == old(out)@ + spaced_text(*expr_pool, *l),
    decreases *l, 0nat,
{
    let ghost o = out@;
    match l {
        ValueList::Nil => {
            assert(out@ =~= o + spaced_text(*expr_pool, *l));
        },
        ValueList::Cons(h, t) => {
            out.push(' ');
            h.fmt_value(expr_pool, out);
            fmt_spaced(t, expr_pool, out);
            assert(out@ =~= o + spaced_text(*expr_pool, *l));
        },
    }
}

/// Appends the fields as `name: value` separated by `, `.
fn fmt_fields(l: &FieldList, expr_pool: &Pools, out: &mut Vec<char>)
    requires
        expr_pool.wf(),
    ensures
        final(out)@ == old(out)@ + fields_text(*expr_pool, *l),
    decreases *l, 0nat,
{
    let ghost o = out@;
    match l {
        FieldList::Nil => {
            assert(out@ =~= o + fields_text(*expr_pool, *l));
        },
        FieldList::Cons(k, v, t) => {
            let name = expr_pool.name_chars(*k);
            push_chars(out, &name);
            out.push(':');
            out.push(' ');
            v.fmt_value(expr_pool, out);
            if !t.is_empty() {
                out.push(',');
                out.push(' ');
                fmt_fields(t, expr_pool, out);
            }
            assert(out@ =~= o + fields_text(*expr_pool, *l));
        },
    }
}

/// The rendering of each value of the list.
fn value_list_texts(l: &ValueList, expr_pool: &Pools) -> (r: Vec<Vec<char>>)
    requires
        expr_pool.wf(),
    ensures
        r@.len() == list_texts(*expr_pool, *l).len(),
        forall|i: int| 0 <= i < r@.len() ==> #[trigger] r@[i]@ == list_texts(*expr_pool, *l)[i],
    decreases *l, 0nat,
{
    match l {
        ValueList::Nil => Vec::new(),
        ValueList::Cons(h, t) => {
            let mut first: Vec<char> = Vec::new();
            h.fmt_value(expr_pool, &mut first);
            assert(first@ =~= value_text(*expr_pool, **h));
            let rest = value_list_texts(t, expr_pool);
            let mut r: Vec<Vec<char>> = Vec::new();
            r.push(first);
            let mut i: usize = 0;
            while i < rest.len()
                invariant
                    i <= rest@.len(),
                    r@.len() == i + 1,
                    r@[0]@ == value_text(*expr_pool, **h),
                    forall|j: int| 0 < j <= i ==> #[trigger] r@[j]@ == rest@[j - 1]@,
                decreases rest.len() - i,
            {
                let c = rest[i].clone();
                assert(c@ =~= rest@[i as int]@);
                r.push(c);
                i = i + 1;
            }
            proof {
                let s = list_texts(*expr_pool, *l);
                assert(s == seq![value_text(*expr_pool, **h)] + list_texts(*expr_pool, **t));
                assert forall|i: int| 0 <= i < r@.len() implies #[trigger] r@[i]@ == s[i] by {
                    if i > 0 {
                        assert(s[i] == list_texts(*expr_pool, **t)[i - 1]);
                    }
                }
            }
            r
        },
    }
}

/// Each name with the rendering of its value.
fn value_field_texts(l: &FieldList, expr_pool: &Pools) -> (r: Vec<(InternedString, Vec<char>)>)
    requires
        expr_pool.wf(),
    ensures
        r@.len() == field_texts(*expr_pool, *l).len(),
        forall|i: int| 0 <= i < r@.len() ==> #[trigger] r@[i].0 == field_texts(*expr_pool, *l)[i].0 && r@[i].1@ == field_texts(*expr_pool, *l)[i].1,
    decreases *l, 0nat,
{
    match l {
        FieldList::Nil => Vec::new(),
        FieldList::Cons(k, v, t) => {
            let mut first: Vec<char> = Vec::new();
            v.fmt_value(expr_pool, &mut first);
            assert(first@ =~= value_text(*expr_pool, **v));
            let rest = value_field_texts(t, expr_pool);
            let mut r: Vec<(InternedString, Vec<char>)> = Vec::new();
            r.push((*k, first));
            let mut i: usize = 0;
            while i < rest.len()
                invariant
                    i <= rest@.len(),
                    r@.len() == i + 1,
                    r@[0].0 == *k,
                    r@[0].1@ == value_text(*expr_pool, **v),
                    forall|j: int| 0 < j <= i ==> #[trigger] r@[j].0 == rest@[j - 1].0 && r@[j].1@ == rest@[j - 1].1@,
                decreases rest.len() - i,
            {
                let c = rest[i].1.clone();
                assert(c@ =~= rest@[i as int].1@);
                r.push((rest[i].0, c));
                i = i + 1;
            }
            proof {
                let s = field_texts(*expr_pool, *l);
                assert(s == seq![(*k, value_text(*expr_pool, **v))] + field_texts(*expr_pool, **t));
                assert forall|i: int| 0 <= i < r@.len() implies #[trigger] r@[i].0 == s[i].0 && r@[i].1@ == s[i].1 by {
                    if i > 0 {
                        assert(s[i] == field_texts(*expr_pool, **t)[i - 1]);
                    }
                }
            }
            r
        },
    }
}

/// The position of the first rendering bound to `name`.
fn find_text(texts: &Vec<(InternedString, Vec<char>)>, name: InternedString) -> (r: Option<usize>)
    ensures
        r matches Some(i) ==> i as int == assoc_index(
            texts@.map_values(|g: (InternedString, Vec<char>)| (g.0, g.1@)),
            name,
        ) && i < texts@.len(),
        r is None ==> assoc_index(texts@.map_values(|g: (InternedString, Vec<char>)| (g.0, g.1@)), name) == -1,
{
    let ghost gl = texts@.map_values(|g: (InternedString, Vec<char>)| (g.0, g.1@));
    let mut i: usize = 0;
    while i < texts.len()
        invariant
            i <= texts@.len(),
            gl == texts@.map_values(|g: (InternedString, Vec<char>)| (g.0, g.1@)),
            forall|j: int| 0 <= j < i ==> texts@[j].0 != name,
        decreases texts.len() - i,
    {
        if texts[i].0 == name {
            proof {
                assert forall|j: int| 0 <= j < i implies gl[j].0 != name by {
                    assert(gl[j].0 == texts@[j].0);
                }
                crate::pools::lemma_assoc_index_first(gl, name, i as int);
            }
            return Some(i);
        }
        i = i + 1;
    }
    proof {
        assert forall|j: int| 0 <= j < gl.len() implies gl[j].0 != name by {
            assert(gl[j].0 == texts@[j].0);
        }
        crate::pools::lemma_assoc_index_none(gl, name);
    }
    None
}

/// Appends expression `expr_id` in surface syntax with the captured values
/// substituted (see `subst_text`).
fn substitute_in_expr(
    expr_pool: &Pools,
    expr_id: ExprId,
    captured_env: &Vec<Vec<char>>,
    captured_globals: &Vec<(InternedString, Vec<char>)>,
    out: &mut Vec<char>,
)
    requires
        expr_pool.wf(),
        expr_pool.valid_expr(expr_id),
    ensures
        final(out)@ == old(out)@ + subst_text(
            *expr_pool,
            expr_id.0 as int,
            captured_env@.map_values(|t: Vec<char>| t@),
            captured_globals@.map_values(|g: (InternedString, Vec<char>)| (g.0, g.1@)),
        ),
    decreases expr_id.0, 1nat, 0nat,
{
    let ghost env = captured_env@.map_values(|t: Vec<char>| t@);
    let ghost gl = captured_globals@.map_values(|g: (InternedString, Vec<char>)| (g.0, g.1@));
    let ghost o = out@;
    let ghost e = expr_id.0 as int;
    assert(expr_pool.expr_node_ok(expr_pool.exprs@[e], e));
    match expr_pool.get_expr(expr_id) {
        Expr::Int(n, _) => {
            push_isize(out, n);
        },
        Expr::String(st, _) => {
            out.push('"');
            let t = expr_pool.name_chars(st);
            push_chars(out, &t);
            out.push('"');
            assert(out@ =~= o + subst_text(*expr_pool, e, env, gl));
        },
        Expr::Unit(_) => {
            out.push('(');
            out.push(')');
            assert(out@ =~= o + subst_text(*expr_pool, e, env, gl));
        },
        Expr::Var(debruijn_index, name, _) => {
            let idx = debruijn_index.index();
            if idx == 0 {
                let t = expr_pool.name_chars(name);
                push_chars(out, &t);
            } else if idx - 1 < captured_env.len() {
                let t = &captured_env[captured_env.len() - idx];
                assert(t@ == env[env.len() - idx]);
                push_chars(out, t);
            } else {
                let t = expr_pool.name_chars(name);
                push_chars(out, &t);
            }
        },
        Expr::GlobalVar(_, name, _) => {
            match find_text(captured_globals, name) {
                Some(i) => {
                    assert(gl[i as int].1 == captured_globals@[i as int].1@);
                    push_chars(out, &captured_globals[i].1);
                },
                None => {
                    let t = expr_pool.name_chars(name);
                    push_chars(out, &t);
                },
            }
        },
        Expr::Call(func_id, arg_id, _) => {
            substitute_in_expr(expr_pool, func_id, captured_env, captured_globals, out);
            out.push(' ');
            substitute_in_expr(expr_pool, arg_id, captured_env, captured_globals, out);
            assert(out@ =~= o + subst_text(*expr_pool, e, env, gl));
        },
        Expr::Lambda(body_id, param_name, _) => {
            push_str(out, "fn ");
            let t = expr_pool.name_chars(param_name);
            push_chars(out, &t);
            push_str(out, " => ");
            substitute_in_expr(expr_pool, body_id, captured_env, captured_globals, out);
            assert(out@ =~= o + subst_text(*expr_pool, e, env, gl));
        },
        Expr::Let(value_id, body_id, var_name, _) => {
            push_str(out, "let ");
            let t = expr_pool.name_chars(var_name);
            push_chars(out, &t);
            push_str(out, " = ");
            substitute_in_expr(expr_pool, value_id, captured_env, captured_globals, out);
            push_str(out, " in ");
            substitute_in_expr(expr_pool, body_id, captured_env, captured_globals, out);
            assert(out@ =~= o + subst_text(*expr_pool, e, env, gl));
        },
        Expr::Construct(constructor, arg_id, _) => {
            let t = expr_pool.name_chars(constructor);
            push_chars(out, &t);
            out.push(' ');
            substitute_in_expr(expr_pool, arg_id, captured_env, captured_globals, out);
            assert(out@ =~= o + subst_text(*expr_pool, e, env, gl));
        },
        Expr::Match(scrutinee, _, _) => {
            push_str(out, "match ");
            substitute_in_expr(expr_pool, scrutinee, captured_env, captured_globals, out);
            push_str(out, " with ...");
            assert(out@ =~= o + subst_text(*expr_pool, e, env, gl));
        },
        Expr::Record(start, len, _) => {
            out.push('{');
            substitute_fields(expr_pool, expr_id, start.0, len, 0, captured_env, captured_globals, out);
            out.push('}');
            assert(out@ =~= o + subst_text(*expr_pool, e, env, gl));
        },
        Expr::Project(record_id, field_name, _) => {
            substitute_in_expr(expr_pool, record_id, captured_env, captured_globals, out);
            out.push('.');
            let t = expr_pool.name_chars(field_name);
            push_chars(out, &t);
            assert(out@ =~= o + subst_text(*expr_pool, e, env, gl));
        },
        Expr::Extend(record_id, start, len, _) => {
            out.push('{');
            substitute_in_expr(expr_pool, record_id, captured_env, captured_globals, out);
            push_str(out, " with ");
            substitute_fields(expr_pool, expr_id, start.0, len, 0, captured_env, captured_globals, out);
            out.push('}');
            assert(out@ =~= o + subst_text(*expr_pool, e, env, gl));
        },
        Expr::Ffi(js_code, _, arg_expr, _) => {
            push_str(out, "ffi!(<");
            let t = expr_pool.name_chars(js_code);
            push_chars(out, &t);
            match arg_expr {
                Some(arg_id) => {
                    push_str(out, ">, ");
                    substitute_in_expr(expr_pool, arg_id, captured_env, captured_globals, out);
                    out.push(')');
                },
                None => {
                    push_str(out, ">)");
                },
            }
            assert(out@ =~= o + subst_text(*expr_pool, e, env, gl));
        },
    }
}

/// Appends the fields `i..len` of the run at `start` as `name: expr`.
fn substitute_fields(
    expr_pool: &Pools,
    parent: ExprId,
    start: usize,
    len: usize,
    i: usize,
    captured_env: &Vec<Vec<char>>,
    captured_globals: &Vec<(InternedString, Vec<char>)>,
    out: &mut Vec<char>,
)
    requires
        expr_pool.wf(),
        expr_pool.valid_expr(parent),
        expr_pool.fields_below(start as int, len as int, parent.0 as int),
    ensures
        final(out)@ == old(out)@ + subst_fields_text(
            *expr_pool,
            parent.0 as int,
            start as int,
            len as int,
            i as int,
            captured_env@.map_values(|t: Vec<char>| t@),
            captured_globals@.map_values(|g: (InternedString, Vec<char>)| (g.0, g.1@)),
        ),
    decreases parent.0, 0nat, len - i,
{
    let ghost env = captured_env@.map_values(|t: Vec<char>| t@);
    let ghost gl = captured_globals@.map_values(|g: (InternedString, Vec<char>)| (g.0, g.1@));
    let ghost o = out@;
    if i >= len {
        assert(out@ =~= o + subst_fields_text(*expr_pool, parent.0 as int, start as int, len as int, i as int, env, gl));
        return ;
    }
    assert(expr_pool.record_fields@.len() == expr_pool.record_fields.len());
    let field = expr_pool.record_fields[start + i];
    if i > 0 {
        out.push(',');
        out.push(' ');
    }
    let t = expr_pool.name_chars(field.name);
    push_chars(out, &t);
    out.push(':');
    out.push(' ');
    substitute_in_expr(expr_pool, field.expr, captured_env, captured_globals, out);
    substitute_fields(expr_pool, parent, start, len, i + 1, captured_env, captured_globals, out);
    assert(out@ =~= o + subst_fields_text(*expr_pool, parent.0 as int, start as int, len as int, i as int, env, gl));
}

// ----- environments --------------------------------------------------------

/// The local values and the globals that evaluation starts from.
#[derive(Debug)]
pub struct PooledEnv {
    pub values: Vec<PooledValue>,
    pub globals: Vec<(InternedString, PooledValue)>,
}

impl PooledEnv {
    /// The local values, innermost last.
    pub open spec fn values_view(&self) -> Seq<PooledValue> {
        self.values@
    }

    /// Every function value of the environment names one of the first `n` expressions.
    pub open spec fn ok(&self, n: nat) -> bool {
        values_ok(n, self.values_view()) && globals_ok(n, self.globals@)
    }

    pub fn new() -> (r: Self)
        ensures
            r.values_view().len() == 0,
            r.globals@.len() == 0,
    {
        Self { values: Vec::new(), globals: Vec::new() }
    }

    /// This environment with `value` bound as De Bruijn index 0.
    pub fn extend(&self, value: PooledValue) -> (r: Self)
        ensures
            r.values_view() == self.values_view().push(value),
            r.globals@ == self.globals@,
    {
        let mut values = copy_values(&self.values);
        values.push(value);
        Self { values, globals: copy_globals(&self.globals) }
    }

    /// The value at De Bruijn index `index`.
    pub fn lookup(&self, index: DeBruijnIndex) -> (r: Option<PooledValue>)
        ensures
            r == lookup_index(self.values_view(), index.0 as nat),
    {
        let idx = index.index();
        if idx < self.values.len() {
            Some(self.values[self.values.len() - 1 - idx].copy())
        } else {
            None
        }
    }

    /// The value of global `name`.
    pub fn lookup_global(&self, name: InternedString) -> (r: Option<PooledValue>)
        ensures
            r == assoc_get(self.globals@, name),
    {
        proof {
            lemma_assoc_index(self.globals@, name);
        }
        match assoc_find(&self.globals, name) {
            Some(i) => Some(self.globals[i].1.copy()),
            None => None,
        }
    }

    /// Binds global `name` to `value`, replacing an earlier binding.
    pub fn insert_global(&mut self, name: InternedString, value: PooledValue)
        ensures
            final(self).globals@ == assoc_put(old(self).globals@, name, value),
            final(self).values_view() == old(self).values_view(),
    {
        assoc_insert(&mut self.globals, name, value);
    }

    /// An environment holding the builtin `add`, a curried function on
    /// integers; its names are interned in `pools`.
    pub fn with_intrinsics(pools: &mut Pools) -> (r: Self)
        requires
            old(pools).wf(),
        ensures
            final(pools).wf(),
            *final(pools) == (Pools { interner: final(pools).interner, ..*old(pools) }),
            old(pools).grows_to(final(pools)),
            r.values_view().len() == 0,
            r.ok(final(pools).exprs@.len()),
            r.globals@.len() <= 1,
            old(pools).interner.strings@.len() + 3 < 0xFFFF_FFFE ==> r.globals@.len() == 1,
            r.globals@.len() == 1 ==> final(pools).interner.text_of(r.globals@[0].0) == "add"@,
            r.globals@.len() == 1 ==> (r.globals@[0].1 matches PooledValue::Function(f) && f.kind is AddIntrinsic
                && final(pools).interner.text_of(f.param) == "x"@),
    {
        let mut env = Self::new();
        let add = match pools.intern_name("add") {
            Some(n) => n,
            None => return env,
        };
        let x = match pools.intern_name("x") {
            Some(n) => n,
            None => return env,
        };
        let y = match pools.intern_name("y") {
            Some(n) => n,
            None => return env,
        };
        let add_func = HOASFunction {
            kind: FunctionKind::AddIntrinsic(y),
            param: x,
            body_id: ExprId(0),
            captured_env: ValueList::Nil,
            captured_globals: FieldList::Nil,
        };
        env.insert_global(add, PooledValue::Function(Box::new(add_func)));
        proof {
            let n = pools.exprs@.len();
            assert(list_ok(n, ValueList::Nil));
            assert(fields_ok(n, FieldList::Nil));
            assert(env.globals@ =~= seq![(add, PooledValue::Function(Box::new(add_func)))]);
            assert(globals_ok(n, env.globals@));
        }
        env
    }
}

/// The value of expression `expr_id` in environment `env` (`eval_spec` at
/// depth `EVAL_DEPTH`).
pub fn evaluate_pooled(expr_id: ExprId, expr_pool: &Pools, env: &PooledEnv) -> (r: Result<PooledValue, EvalError>)
    requires
        expr_pool.wf(),
        expr_pool.valid_expr(expr_id),
        env.ok(expr_pool.exprs@.len()),
    ensures
        r == eval_spec(*expr_pool, expr_id, env.values_view(), env.globals@, EVAL_DEPTH as nat),
        r matches Ok(v) ==> value_ok(expr_pool.exprs@.len(), v),
{
    eval_hoas(expr_pool, expr_id, &env.values, &env.globals, EVAL_DEPTH)
}

impl HOASFunction {
    /// Applies this function to `arg` (`apply_spec` at depth `EVAL_DEPTH`).
    pub fn call(&self, expr_pool: &Pools, arg: PooledValue) -> (r: Result<PooledValue, EvalError>)
        requires
            expr_pool.wf(),
            value_ok(expr_pool.exprs@.len(), PooledValue::Function(Box::new(*self))),
            value_ok(expr_pool.exprs@.len(), arg),
        ensures
            r == apply_spec(*expr_pool, *self, arg, EVAL_DEPTH as nat),
            r matches Ok(v) ==> value_ok(expr_pool.exprs@.len(), v),
    {
        apply_function(expr_pool, self, arg, EVAL_DEPTH)
    }
}

/// The message for an evaluation error.
pub open spec fn eval_error_text(p: Pools, e: EvalError) -> Seq<char> {
    match e {
        EvalError::UnboundVariable(name, idx) => "Unbound variable: "@ + p.interner.text_of(name)
            + " (De Bruijn index: "@ + crate::text::nat_digits(idx as nat) + ")"@,
        EvalError::UnboundGlobal(name) => "Unbound global variable: "@ + p.interner.text_of(name),
        EvalError::NotAFunction => "Attempted to call a non-function value"@,
        EvalError::NonExhaustiveMatch => "Non-exhaustive pattern match"@,
        EvalError::MissingField(name) => "Field '"@ + p.interner.text_of(name) + "' not found in record"@,
        EvalError::ProjectNonRecord => "Attempted to project field from non-record value"@,
        EvalError::ExtendNonRecord => "Attempted to extend non-record value"@,
        EvalError::ForeignCode => "FFI expressions cannot be evaluated in the interpreter"@,
        EvalError::RecordPattern => "Record pattern matching not yet implemented"@,
        EvalError::AddFirstArgument => "First argument to add must be an integer"@,
        EvalError::AddSecondArgument => "Second argument to add must be an integer"@,
        EvalError::IntegerOverflow => "attempt to add with overflow"@,
        EvalError::ImplementationNotFunction => "Expected function implementation to be a function"@,
        EvalError::DepthExceeded => "Evaluation is nested too deeply"@,
    }
}

impl EvalError {
    /// The message for this error.
    pub fn message(&self, pools: &Pools) -> (r: String)
        requires
            pools.wf(),
        ensures
            r@ == eval_error_text(*pools, *self),
    {
        let mut out: Vec<char> = Vec::new();
        match self {
            EvalError::UnboundVariable(name, idx) => {
                push_str(&mut out, "Unbound variable: ");
                let t = pools.name_chars(*name);
                push_chars(&mut out, &t);
                push_str(&mut out, " (De Bruijn index: ");
                crate::text::push_usize(&mut out, *idx);
                push_str(&mut out, ")");
            },
            EvalError::UnboundGlobal(name) => {
                push_str(&mut out, "Unbound global variable: ");
                let t = pools.name_chars(*name);
                push_chars(&mut out, &t);
            },
            EvalError::NotAFunction => push_str(&mut out, "Attempted to call a non-function value"),
            EvalError::NonExhaustiveMatch => push_str(&mut out, "Non-exhaustive pattern match"),
            EvalError::MissingField(name) => {
                push_str(&mut out, "Field '");
                let t = pools.name_chars(*name);
                push_chars(&mut out, &t);
                push_str(&mut out, "' not found in record");
            },
            EvalError::ProjectNonRecord => push_str(&mut out, "Attempted to project field from non-record value"),
            EvalError::ExtendNonRecord => push_str(&mut out, "Attempted to extend non-record value"),
            EvalError::ForeignCode => push_str(&mut out, "FFI expressions cannot be evaluated in the interpreter"),
            EvalError::RecordPattern => push_str(&mut out, "Record pattern matching not yet implemented"),
            EvalError::AddFirstArgument => push_str(&mut out, "First argument to add must be an integer"),
            EvalError::AddSecondArgument => push_str(&mut out, "Second argument to add must be an integer"),
            EvalError::IntegerOverflow => push_str(&mut out, "attempt to add with overflow"),
            EvalError::ImplementationNotFunction => push_str(&mut out, "Expected function implementation to be a function"),
            EvalError::DepthExceeded => push_str(&mut out, "Evaluation is nested too deeply"),
        }
        assert(out@ =~= eval_error_text(*pools, *self));
        chars_to_string(&out)
    }
}

// ----- laws ----------------------------------------------------------------

/// The value at De Bruijn index `i` of the local values `s` (the last value
/// has index 0).
pub open spec fn lookup_index(s: Seq<PooledValue>, i: nat) -> Option<PooledValue> {
    if i < s.len() {
        Some(s[s.len() - 1 - i])
    } else {
        None
    }
}

/// Binding a value makes it index 0 and shifts every other index by one.
pub proof fn lemma_extend_lookup(s: Seq<PooledValue>, v: PooledValue, i: nat)
    ensures
        lookup_index(s.push(v), 0) == Some(v),
        lookup_index(s.push(v), i + 1) == lookup_index(s, i),
{
}

/// Projecting the field an extension set gives the value it set; the other
/// fields are unchanged.
pub proof fn lemma_fields_put_get(l: FieldList, k: InternedString, v: PooledValue, other: InternedString)
    ensures
        fields_get(fields_put(l, k, v), k) == Some(v),
        other != k ==> fields_get(fields_put(l, k, v), other) == fields_get(l, other),
    decreases l,
{
    match l {
        FieldList::Nil => {},
        FieldList::Cons(n, x, t) => {
            lemma_fields_put_get(*t, k, v, other);
        },
    }
}

/// Applying a constructor value to one more argument appends it.
pub proof fn lemma_list_push_seq(l: ValueList, v: PooledValue)
    ensures
        list_seq(list_push(l, v)) == list_seq(l).push(v),
    decreases l,
{
    match l {
        ValueList::Nil => {
            assert(list_seq(list_push(l, v)) =~= list_seq(l).push(v));
        },
        ValueList::Cons(h, t) => {
            lemma_list_push_seq(*t, v);
            assert(list_seq(list_push(l, v)) =~= list_seq(l).push(v));
        },
    }
}

/// An evaluation that does not run out of depth gives the same result with
/// any larger depth budget.
pub proof fn lemma_eval_depth_mono(
    p: Pools,
    e: ExprId,
    env: Seq<PooledValue>,
    g: Seq<(InternedString, PooledValue)>,
    fuel: nat,
    more: nat,
)
    requires
        fuel <= more,
        eval_spec(p, e, env, g, fuel) != Err::<PooledValue, EvalError>(EvalError::DepthExceeded),
    ensures
        eval_spec(p, e, env, g, more) == eval_spec(p, e, env, g, fuel),
    decreases fuel, 0nat, 0nat,
{
    let f1 = (fuel - 1) as nat;
    let m1 = (more - 1) as nat;
    match p.exprs@[e.0 as int] {
        Expr::Let(v, b, _, _) => {
            lemma_eval_depth_mono(p, v, env, g, f1, m1);
            if let Ok(val) = eval_spec(p, v, env, g, f1) {
                lemma_eval_depth_mono(p, b, kept_env(env, free_vars(p, b.0 as int, 1)).push(val), g, f1, m1);
            }
        },
        Expr::Call(fe, ae, _) => {
            lemma_eval_depth_mono(p, fe, env, g, f1, m1);
            if let Ok(fv) = eval_spec(p, fe, env, g, f1) {
                lemma_eval_depth_mono(p, ae, env, g, f1, m1);
                if let Ok(av) = eval_spec(p, ae, env, g, f1) {
                    if let PooledValue::Function(h) = fv {
                        lemma_apply_depth_mono(p, *h, av, f1, m1);
                    }
                }
            }
        },
        Expr::Construct(_, a, _) => {
            lemma_eval_depth_mono(p, a, env, g, f1, m1);
        },
        Expr::Match(x, arms, _) => {
            lemma_eval_depth_mono(p, x, env, g, f1, m1);
            if let Ok(mv) = eval_spec(p, x, env, g, f1) {
                lemma_match_arms_depth_mono(p, arms, 0, mv, env, g, f1, m1);
            }
        },
        Expr::Record(start, len, _) => {
            lemma_record_depth_mono(p, start.0 as int, len as int, 0, env, g, f1, m1);
        },
        Expr::Project(r, _, _) => {
            lemma_eval_depth_mono(p, r, env, g, f1, m1);
        },
        Expr::Extend(r, start, len, _) => {
            lemma_eval_depth_mono(p, r, env, g, f1, m1);
            if let Ok(PooledValue::Record(fs)) = eval_spec(p, r, env, g, f1) {
                lemma_extend_depth_mono(p, start.0 as int, len as int, 0, fs, env, g, f1, m1);
            }
        },
        _ => {},
    }
}

/// Function application, like evaluation, does not depend on a larger budget.
pub proof fn lemma_apply_depth_mono(p: Pools, f: HOASFunction, arg: PooledValue, fuel: nat, more: nat)
    requires
        fuel <= more,
        apply_spec(p, f, arg, fuel) != Err::<PooledValue, EvalError>(EvalError::DepthExceeded),
    ensures
        apply_spec(p, f, arg, more) == apply_spec(p, f, arg, fuel),
    decreases fuel, 1nat, 0nat,
{
    match f.kind {
        FunctionKind::Closure => {
            lemma_eval_depth_mono(
                p,
                f.body_id,
                list_seq(f.captured_env).push(arg),
                fields_seq(f.captured_globals),
                fuel,
                more,
            );
        },
        FunctionKind::Recursive(name, vs, gs) => {
            let g2 = assoc_put(fields_seq(gs), name, PooledValue::Function(Box::new(f)));
            lemma_eval_depth_mono(p, f.body_id, list_seq(vs), g2, fuel, more);
            if let Ok(PooledValue::Function(h)) = eval_spec(p, f.body_id, list_seq(vs), g2, fuel) {
                if fuel > 0 {
                    lemma_apply_depth_mono(p, *h, arg, (fuel - 1) as nat, (more - 1) as nat);
                }
            }
        },
        _ => {},
    }
}

pub proof fn lemma_record_depth_mono(
    p: Pools,
    start: int,
    len: int,
    i: int,
    env: Seq<PooledValue>,
    g: Seq<(InternedString, PooledValue)>,
    fuel: nat,
    more: nat,
)
    requires
        fuel <= more,
        record_spec(p, start, len, i, env, g, fuel) != Err::<FieldList, EvalError>(EvalError::DepthExceeded),
    ensures
        record_spec(p, start, len, i, env, g, more) == record_spec(p, start, len, i, env, g, fuel),
    decreases fuel, 1nat, len - i,
{
    if !(i >= len || i < 0 || start < 0 || start + len > p.record_fields@.len()) {
        let f = p.record_fields@[start + i];
        lemma_eval_depth_mono(p, f.expr, env, g, fuel, more);
        if eval_spec(p, f.expr, env, g, fuel) is Ok {
            lemma_record_depth_mono(p, start, len, i + 1, env, g, fuel, more);
        }
    }
}

pub proof fn lemma_extend_depth_mono(
    p: Pools,
    start: int,
    len: int,
    i: int,
    acc: FieldList,
    env: Seq<PooledValue>,
    g: Seq<(InternedString, PooledValue)>,
    fuel: nat,
    more: nat,
)
    requires
        fuel <= more,
        extend_spec(p, start, len, i, acc, env, g, fuel) != Err::<PooledValue, EvalError>(EvalError::DepthExceeded),
    ensures
        extend_spec(p, start, len, i, acc, env, g, more) == extend_spec(p, start, len, i, acc, env, g, fuel),
    decreases fuel, 1nat, len - i,
{
    if !(i >= len || i < 0 || start < 0 || start + len > p.record_fields@.len()) {
        let f = p.record_fields@[start + i];
        lemma_eval_depth_mono(p, f.expr, env, g, fuel, more);
        if let Ok(v) = eval_spec(p, f.expr, env, g, fuel) {
            lemma_extend_depth_mono(p, start, len, i + 1, fields_put(acc, f.name, v), env, g, fuel, more);
        }
    }
}

pub proof fn lemma_match_arms_depth_mono(
    p: Pools,
    arms: MatchArms,
    i: int,
    mv: PooledValue,
    env: Seq<PooledValue>,
    g: Seq<(InternedString, PooledValue)>,
    fuel: nat,
    more: nat,
)
    requires
        fuel <= more,
        match_arms_spec(p, arms, i, mv, env, g, fuel) != Err::<PooledValue, EvalError>(EvalError::DepthExceeded),
    ensures
        match_arms_spec(p, arms, i, mv, env, g, more) == match_arms_spec(p, arms, i, mv, env, g, fuel),
    decreases fuel, 1nat, arms.length - i,
{
    if !(i >= arms.length || i < 0 || arms.start_id.0 + arms.length > p.patterns@.len()) {
        let case = p.patterns@[arms.start_id.0 + i];
        match match_pattern(case.pattern, mv) {
            Ok(None) => {
                lemma_match_arms_depth_mono(p, arms, i + 1, mv, env, g, fuel, more);
            },
            Ok(Some(b)) => {
                lemma_eval_depth_mono(p, case.body, env + b, g, fuel, more);
            },
            Err(_) => {},
        }
    }
}

// ----- equality ------------------------------------------------------------

/// The value of the first field named `k`, and the list without that field.
pub open spec fn take_field(l: FieldList, k: InternedString) -> Option<(PooledValue, FieldList)>
    decreases l,
{
    match l {
        FieldList::Nil => None,
        FieldList::Cons(n, v, t) => if n == k {
            Some((*v, *t))
        } else {
            match take_field(*t, k) {
                None => None,
                Some((w, rest)) => Some((w, FieldList::Cons(n, v, Box::new(rest)))),
            }
        },
    }
}

/// When two values are equal: integers, strings and units by value,
/// constructors by name and values in order, records when they have the same
/// fields with the fields of each name compared in order (fields of different
/// names may come in any order); functions are never equal.
pub open spec fn value_eq(a: PooledValue, b: PooledValue) -> bool
    decreases a, 0nat,
{
    match a {
        PooledValue::Int(x) => b matches PooledValue::Int(y) && x == y,
        PooledValue::String(x) => b matches PooledValue::String(y) && x == y,
        PooledValue::Unit => b is Unit,
        PooledValue::Function(_) => false,
        PooledValue::Constructor(n1, l1) => match b {
            PooledValue::Constructor(n2, l2) => n1 == n2 && list_eq(l1, l2),
            _ => false,
        },
        PooledValue::Record(f1) => match b {
            PooledValue::Record(f2) => fields_eq(f1, f2),
            _ => false,
        },
    }
}

/// Lists of the same length whose values are equal in order.
pub open spec fn list_eq(l1: ValueList, l2: ValueList) -> bool
    decreases l1, 0nat,
{
    match l1 {
        ValueList::Nil => l2 is Nil,
        ValueList::Cons(h1, t1) => match l2 {
            ValueList::Cons(h2, t2) => value_eq(*h1, *h2) && list_eq(*t1, *t2),
            ValueList::Nil => false,
        },
    }
}

/// Field lists where each field of `f1`, in order, has an equal partner among
/// the fields of the same name of `f2`, taken in order, and no field is left over.
pub open spec fn fields_eq(f1: FieldList, f2: FieldList) -> bool
    decreases f1, 0nat,
{
    match f1 {
        FieldList::Nil => f2 is Nil,
        FieldList::Cons(k, v, t) => match take_field(f2, k) {
            None => false,
            Some((w, rest)) => value_eq(*v, w) && fields_eq(*t, rest),
        },
    }
}

/// A copy of the first field named `k`, and a copy of the list without it.
fn take_field_copy(l: &FieldList, k: InternedString) -> (r: Option<(PooledValue, FieldList)>)
    ensures
        r == take_field(*l, k),
    decreases *l,
{
    match l {
        FieldList::Nil => None,
        FieldList::Cons(n, v, t) => {
            if *n == k {
                Some(((**v).copy(), (**t).copy()))
            } else {
                match take_field_copy(t, k) {
                    None => None,
                    Some((w, rest)) => Some((w, FieldList::Cons(*n, Box::new((**v).copy()), Box::new(rest)))),
                }
            }
        },
    }
}

/// Whether two values are equal (`value_eq`).
pub fn values_equal(a: &PooledValue, b: &PooledValue) -> (r: bool)
    ensures
        r == value_eq(*a, *b),
    decreases *a, 0nat,
{
    match a {
        PooledValue::Int(x) => match b {
            PooledValue::Int(y) => *x == *y,
            _ => false,
        },
        PooledValue::String(x) => match b {
            PooledValue::String(y) => *x == *y,
            _ => false,
        },
        PooledValue::Unit => match b {
            PooledValue::Unit => true,
            _ => false,
        },
        PooledValue::Function(_) => false,
        PooledValue::Constructor(n1, l1) => match b {
            PooledValue::Constructor(n2, l2) => *n1 == *n2 && lists_equal(l1, l2),
            _ => false,
        },
        PooledValue::Record(f1) => match b {
            PooledValue::Record(f2) => fields_equal(f1, f2),
            _ => false,
        },
    }
}

fn lists_equal(l1: &ValueList, l2: &ValueList) -> (r: bool)
    ensures
        r == list_eq(*l1, *l2),
    decreases *l1, 0nat,
{
    match l1 {
        ValueList::Nil => l2.is_empty(),
        ValueList::Cons(h1, t1) => match l2 {
            ValueList::Cons(h2, t2) => values_equal(h1, h2) && lists_equal(t1, t2),
            ValueList::Nil => false,
        },
    }
}

fn fields_equal(f1: &FieldList, f2: &FieldList) -> (r: bool)
    ensures
        r == fields_eq(*f1, *f2),
    decreases *f1, 0nat,
{
    match f1 {
        FieldList::Nil => f2.is_empty(),
        FieldList::Cons(k, v, t) => match take_field_copy(f2, *k) {
            None => false,
            Some((w, rest)) => values_equal(v, &w) && fields_equal(t, &rest),
        },
    }
}

impl PartialEq for PooledValue {
    fn eq(&self, other: &Self) -> (r: bool) {
        values_equal(self, other)
    }
}

impl PartialEqSpecImpl for PooledValue {
    open spec fn obeys_eq_spec() -> bool {
        true
    }

    open spec fn eq_spec(&self, other: &Self) -> bool {
        value_eq(*self, *other)
    }
}

} // verus!
