//! Types, row fields, constructor signatures and type schemes.
use vstd::prelude::*;

use crate::pools::{assoc_get, lemma_assoc_index_first, lemma_assoc_index_none, lemma_prefix_trans, prefix_of, Pools, SpanId, TypeId, TypeVarId};
use crate::text::{chars_to_string, nat_digits, push_chars, push_str, push_usize};
use crate::InternedString;

verus! {

/// Position of a run of row fields in the row-field pool.
#[derive(Debug, Clone, Copy, PartialEq, Eq, Hash, Structural)]
pub struct FieldId(pub usize);

/// One `name: type` entry of a row type.
#[derive(Debug, Clone, Copy, PartialEq, Eq)]
pub struct RowField {
    pub name: InternedString,
    pub field_type: TypeId,
}

/// A type node; compound nodes refer to earlier nodes of the type pool.
#[derive(Debug, Clone, Copy, PartialEq, Eq)]
pub enum Type {
    Int(SpanId),
    String(SpanId),
    Unit(SpanId),
    Var(TypeVarId, SpanId),
    Arrow(TypeId, TypeId, SpanId),
    /// `T τ1 ... τn`: name, first parameter slot, number of parameters.
    DataType(InternedString, TypeId, usize, SpanId),
    /// `α τ1 ... τn`: a type variable applied to parameters.
    TypeApp(TypeVarId, TypeId, usize, SpanId),
    /// The empty row `{}`.
    EmptyRow(SpanId),
    /// `{f1: τ1, ..., fn: τn, ...rest}`: first field slot, number of fields, rest.
    Row(FieldId, usize, TypeId, SpanId),
}

/// The signature `∀γ. (∀α. ∃β. τ') → τ` of a data constructor.
#[derive(Debug, Clone)]
pub struct ConstructorType {
    pub outer_quantified_vars: Vec<TypeVarId>,
    pub universal_vars: Vec<TypeVarId>,
    pub existential_vars: Vec<TypeVarId>,
    pub component_type: TypeId,
    pub result_type: TypeId,
}

/// A type with universally quantified variables.
#[derive(Debug, Clone)]
pub struct TypeScheme {
    pub quantified: Vec<TypeVarId>,
    pub ty: TypeId,
}

} // verus!

verus! {

/// A substitution of types for type variables, keyed by variable number; the first
/// binding of a number wins.
pub type VarSubst = Vec<(usize, TypeId)>;

/// Position of the first binding of variable `v` in a substitution.
pub fn subst_lookup(s: &Vec<(usize, TypeId)>, v: usize) -> (r: Option<TypeId>)
    ensures
        r is Some ==> exists|i: int| 0 <= i < s@.len() && s@[i].0 == v && s@[i].1 == r.unwrap(),
        r is Some ==> crate::pools::assoc_get(s@, v) == r,
        r is None ==> forall|i: int| 0 <= i < s@.len() ==> s@[i].0 != v,
        r is None ==> crate::pools::assoc_get(s@, v) is None,
{
    let mut i: usize = 0;
    while i < s.len()
        invariant
            i <= s.len(),
            forall|j: int| 0 <= j < i ==> s@[j].0 != v,
        decreases s.len() - i,
    {
        if s[i].0 == v {
            proof {
                crate::pools::lemma_assoc_index_first(s@, v, i as int);
            }
            return Some(s[i].1);
        }
        i = i + 1;
    }
    proof {
        crate::pools::lemma_assoc_index_none(s@, v);
    }
    None
}

/// Binds variable `v` to `t`, replacing its first binding if there is one.
pub fn subst_insert(s: &mut Vec<(usize, TypeId)>, v: usize, t: TypeId)
    ensures
        final(s)@ == crate::pools::assoc_put(old(s)@, v, t),
{
    proof {
        crate::pools::lemma_assoc_index(s@, v);
    }
    let mut i: usize = 0;
    while i < s.len()
        invariant
            i <= s.len(),
            s@ == old(s)@,
            forall|j: int| 0 <= j < i ==> s@[j].0 != v,
        decreases s.len() - i,
    {
        if s[i].0 == v {
            proof {
                crate::pools::lemma_assoc_index_first(s@, v, i as int);
            }
            s.set(i, (v, t));
            return ;
        }
        i = i + 1;
    }
    proof {
        crate::pools::lemma_assoc_index_none(s@, v);
    }
    s.push((v, t));
}

/// Every type a substitution maps to is a node of `pools`.
pub open spec fn subst_valid(pools: &Pools, s: Seq<(usize, TypeId)>) -> bool {
    forall|i: int| 0 <= i < s.len() ==> (#[trigger] s[i]).1.0 < pools.types@.len()
}

pub proof fn lemma_subst_put_valid(pools: &Pools, s: Seq<(usize, TypeId)>, v: usize, t: TypeId)
    requires
        subst_valid(pools, s),
        t.0 < pools.types@.len(),
    ensures
        subst_valid(pools, crate::pools::assoc_put(s, v, t)),
{
    let n = pools.types@.len();
    crate::pools::lemma_assoc_put_all(s, v, t, |x: TypeId| x.0 < n);
}

/// Whether a variable with number `v` is in `vars`.
pub fn contains_var(vars: &Vec<TypeVarId>, v: usize) -> (r: bool)
    ensures
        r == (exists|i: int| 0 <= i < vars@.len() && vars@[i].0 == v),
{
    let mut i: usize = 0;
    while i < vars.len()
        invariant
            i <= vars.len(),
            forall|j: int| 0 <= j < i ==> vars@[j].0 != v,
        decreases vars.len() - i,
    {
        if vars[i].0 == v {
            return true;
        }
        i = i + 1;
    }
    false
}

/// No variable number occurs twice.
pub open spec fn distinct_vars(vars: Seq<TypeVarId>) -> bool {
    forall|i: int, j: int| 0 <= i < j < vars.len() ==> vars[i].0 != vars[j].0
}

/// Some variable of `vars` has number `v`.
pub open spec fn has_var(vars: Seq<TypeVarId>, v: usize) -> bool {
    exists|i: int| 0 <= i < vars.len() && vars[i].0 == v
}

/// Variable number `v` occurs in type `t`; the head variable of a type application
/// does not count.
pub open spec fn var_occurs(p: &Pools, t: int, v: usize) -> bool
    decreases t, 1int, 0int,
{
    if t < 0 || t >= p.types@.len() {
        false
    } else {
        match p.types@[t] {
            Type::Var(x, _) => x.0 == v,
            Type::Arrow(a, b, _) => (a.0 < t && var_occurs(p, a.0 as int, v)) || (b.0 < t
                && var_occurs(p, b.0 as int, v)),
            Type::DataType(_, start, len, _) => var_occurs_params(p, t, start.0 as int, len as int, 0, v),
            Type::TypeApp(_, start, len, _) => var_occurs_params(p, t, start.0 as int, len as int, 0, v),
            Type::Row(start, len, rest, _) => var_occurs_row(p, t, start.0 as int, len as int, 0, v) || (
            rest.0 < t && var_occurs(p, rest.0 as int, v)),
            _ => false,
        }
    }
}

/// Variable number `v` occurs in one of the parameters `i..len` of the run at `start`.
pub open spec fn var_occurs_params(p: &Pools, parent: int, start: int, len: int, i: int, v: usize) -> bool
    decreases parent, 0int, len - i,
{
    if i >= len || i < 0 || start < 0 || start + len > p.type_params@.len() {
        false
    } else {
        let param = p.type_params@[start + i].0 as int;
        (param < parent && var_occurs(p, param, v)) || var_occurs_params(p, parent, start, len, i + 1, v)
    }
}

/// Variable number `v` occurs in the type of one of the fields `i..len` of the run at `start`.
pub open spec fn var_occurs_row(p: &Pools, parent: int, start: int, len: int, i: int, v: usize) -> bool
    decreases parent, 0int, len - i,
{
    if i >= len || i < 0 || start < 0 || start + len > p.row_fields@.len() {
        false
    } else {
        let f = p.row_fields@[start + i].field_type.0 as int;
        (f < parent && var_occurs(p, f, v)) || var_occurs_row(p, parent, start, len, i + 1, v)
    }
}

/// Whether a variable occurs in an existing type does not change as the pools grow.
pub proof fn lemma_var_occurs_grow(a: &Pools, b: &Pools, t: int, v: usize)
    requires
        a.wf(),
        a.grows_to(b),
        0 <= t < a.types@.len(),
    ensures
        var_occurs(a, t, v) == var_occurs(b, t, v),
    decreases t, 1int, 0int,
{
    assert(b.types@[t] == a.types@[t]);
    assert(a.type_node_ok(a.types@[t], t));
    match a.types@[t] {
        Type::Arrow(x, y, _) => {
            if x.0 < t {
                lemma_var_occurs_grow(a, b, x.0 as int, v);
            }
            if y.0 < t {
                lemma_var_occurs_grow(a, b, y.0 as int, v);
            }
        },
        Type::DataType(_, start, len, _) => {
            lemma_var_occurs_params_grow(a, b, t, start.0 as int, len as int, 0, v);
        },
        Type::TypeApp(_, start, len, _) => {
            lemma_var_occurs_params_grow(a, b, t, start.0 as int, len as int, 0, v);
        },
        Type::Row(start, len, rest, _) => {
            lemma_var_occurs_row_grow(a, b, t, start.0 as int, len as int, 0, v);
            if rest.0 < t {
                lemma_var_occurs_grow(a, b, rest.0 as int, v);
            }
        },
        _ => {},
    }
}

pub proof fn lemma_var_occurs_params_grow(a: &Pools, b: &Pools, parent: int, start: int, len: int, i: int, v: usize)
    requires
        a.wf(),
        a.grows_to(b),
        0 <= parent < a.types@.len(),
        a.params_below(start, len, parent),
    ensures
        var_occurs_params(a, parent, start, len, i, v) == var_occurs_params(b, parent, start, len, i, v),
    decreases parent, 0int, len - i,
{
    if i >= len || i < 0 || start < 0 || start + len > a.type_params@.len() {
    } else {
        assert(b.type_params@[start + i] == a.type_params@[start + i]);
        let param = a.type_params@[start + i].0 as int;
        if param < parent {
            lemma_var_occurs_grow(a, b, param, v);
        }
        lemma_var_occurs_params_grow(a, b, parent, start, len, i + 1, v);
    }
}

pub proof fn lemma_var_occurs_row_grow(a: &Pools, b: &Pools, parent: int, start: int, len: int, i: int, v: usize)
    requires
        a.wf(),
        a.grows_to(b),
        0 <= parent < a.types@.len(),
        a.row_below(start, len, parent),
    ensures
        var_occurs_row(a, parent, start, len, i, v) == var_occurs_row(b, parent, start, len, i, v),
    decreases parent, 0int, len - i,
{
    if i >= len || i < 0 || start < 0 || start + len > a.row_fields@.len() {
    } else {
        assert(b.row_fields@[start + i] == a.row_fields@[start + i]);
        let f = a.row_fields@[start + i].field_type.0 as int;
        if f < parent {
            lemma_var_occurs_grow(a, b, f, v);
        }
        lemma_var_occurs_row_grow(a, b, parent, start, len, i + 1, v);
    }
}

/// `cur` holds the variables of `before` and those of parameters `0..i`, exactly when
/// `before` together with parameters `0..len` holds them.
pub open spec fn gathered_params(p: &Pools, cur: Seq<TypeVarId>, before: Seq<TypeVarId>, parent: int, start: int, len: int, i: int) -> bool {
    forall|v: usize|
        #![trigger has_var(cur, v)]
        #![trigger var_occurs_params(p, parent, start, len, i, v)]
        has_var(cur, v) || var_occurs_params(p, parent, start, len, i, v)
            <==> has_var(before, v) || var_occurs_params(p, parent, start, len, 0, v)
}

/// The same as [`gathered_params`] for the fields of a row.
pub open spec fn gathered_row(p: &Pools, cur: Seq<TypeVarId>, before: Seq<TypeVarId>, parent: int, start: int, len: int, i: int) -> bool {
    forall|v: usize|
        #![trigger has_var(cur, v)]
        #![trigger var_occurs_row(p, parent, start, len, i, v)]
        has_var(cur, v) || var_occurs_row(p, parent, start, len, i, v)
            <==> has_var(before, v) || var_occurs_row(p, parent, start, len, 0, v)
}

proof fn lemma_gathered_params_step(p: &Pools, a: Seq<TypeVarId>, b: Seq<TypeVarId>, before: Seq<TypeVarId>, parent: int, start: int, len: int, i: int)
    requires
        gathered_params(p, a, before, parent, start, len, i),
        0 <= i < len,
        0 <= start,
        start + len <= p.type_params@.len(),
        p.type_params@[start + i].0 < parent,
        forall|v: usize| #[trigger] has_var(b, v) <==> (has_var(a, v) || var_occurs(p, p.type_params@[start + i].0 as int, v)),
    ensures
        gathered_params(p, b, before, parent, start, len, i + 1),
{
    assert forall|v: usize| #[trigger] has_var(b, v) || var_occurs_params(p, parent, start, len, i + 1, v)
        <==> has_var(before, v) || var_occurs_params(p, parent, start, len, 0, v) by {
        assert(has_var(a, v) || var_occurs_params(p, parent, start, len, i, v)
            <==> has_var(before, v) || var_occurs_params(p, parent, start, len, 0, v));
        assert(var_occurs_params(p, parent, start, len, i, v) == ((p.type_params@[start + i].0 < parent
            && var_occurs(p, p.type_params@[start + i].0 as int, v)) || var_occurs_params(p, parent, start, len, i + 1, v)));
        assert(has_var(b, v) == (has_var(a, v) || var_occurs(p, p.type_params@[start + i].0 as int, v)));
    }
}

proof fn lemma_gathered_row_step(p: &Pools, a: Seq<TypeVarId>, b: Seq<TypeVarId>, before: Seq<TypeVarId>, parent: int, start: int, len: int, i: int)
    requires
        gathered_row(p, a, before, parent, start, len, i),
        0 <= i < len,
        0 <= start,
        start + len <= p.row_fields@.len(),
        p.row_fields@[start + i].field_type.0 < parent,
        forall|v: usize| #[trigger] has_var(b, v) <==> (has_var(a, v) || var_occurs(p, p.row_fields@[start + i].field_type.0 as int, v)),
    ensures
        gathered_row(p, b, before, parent, start, len, i + 1),
{
    assert forall|v: usize| #[trigger] has_var(b, v) || var_occurs_row(p, parent, start, len, i + 1, v)
        <==> has_var(before, v) || var_occurs_row(p, parent, start, len, 0, v) by {
        assert(has_var(a, v) || var_occurs_row(p, parent, start, len, i, v)
            <==> has_var(before, v) || var_occurs_row(p, parent, start, len, 0, v));
        assert(var_occurs_row(p, parent, start, len, i, v) == ((p.row_fields@[start + i].field_type.0 < parent
            && var_occurs(p, p.row_fields@[start + i].field_type.0 as int, v)) || var_occurs_row(p, parent, start, len, i + 1, v)));
        assert(has_var(b, v) == (has_var(a, v) || var_occurs(p, p.row_fields@[start + i].field_type.0 as int, v)));
    }
}

impl Pools {
    /// The type variables occurring in `id`, each once, in order of first occurrence;
    /// the head variable of a type application is not counted.
    pub fn free_vars(&self, id: TypeId) -> (r: Vec<TypeVarId>)
        requires
            self.wf(),
            self.valid_type(id),
        ensures
            distinct_vars(r@),
            forall|v: usize| #[trigger] has_var(r@, v) <==> var_occurs(self, id.0 as int, v),
    {
        let mut vars: Vec<TypeVarId> = Vec::new();
        self.collect_free_vars(id, &mut vars);
        vars
    }

    /// The same variables as [`Pools::free_vars`].
    pub fn type_free_vars(&self, ty: TypeId) -> (r: Vec<TypeVarId>)
        requires
            self.wf(),
            self.valid_type(ty),
        ensures
            distinct_vars(r@),
            forall|v: usize| #[trigger] has_var(r@, v) <==> var_occurs(self, ty.0 as int, v),
    {
        self.free_vars(ty)
    }

    fn collect_free_vars(&self, id: TypeId, vars: &mut Vec<TypeVarId>)
        requires
            self.wf(),
            self.valid_type(id),
            distinct_vars(old(vars)@),
        ensures
            distinct_vars(final(vars)@),
            prefix_of(old(vars)@, final(vars)@),
            forall|v: usize| #[trigger] has_var(final(vars)@, v) <==> (has_var(old(vars)@, v)
                || var_occurs(self, id.0 as int, v)),
        decreases id.0,
    {
        let ty = self.types[id.0];
        assert(self.type_node_ok(self.types@[id.0 as int], id.0 as int));
        match ty {
            Type::Var(var_id, _) => {
                if !contains_var(vars, var_id.0) {
                    vars.push(var_id);
                    proof {
                        assert forall|v: usize| #[trigger] has_var(vars@, v) <==> (has_var(old(vars)@, v)
                            || var_occurs(self, id.0 as int, v)) by {
                            if has_var(vars@, v) {
                                let k = choose|k: int| 0 <= k < vars@.len() && vars@[k].0 == v;
                                if k < old(vars)@.len() {
                                    assert(old(vars)@[k] == vars@[k]);
                                }
                            }
                            if has_var(old(vars)@, v) {
                                let k = choose|k: int| 0 <= k < old(vars)@.len() && old(vars)@[k].0 == v;
                                assert(vars@[k] == old(vars)@[k]);
                            }
                            if var_occurs(self, id.0 as int, v) {
                                assert(vars@[vars@.len() - 1].0 == v);
                            }
                        }
                    }
                }
            },
            Type::Arrow(from_id, to_id, _) => {
                self.collect_free_vars(from_id, vars);
                self.collect_free_vars(to_id, vars);
            },
            Type::DataType(_, start, len, _) | Type::TypeApp(_, start, len, _) => {
                let params = self.get_data_type_params(start.0, len);
                assert(forall|v: usize| #[trigger] var_occurs(self, id.0 as int, v) == var_occurs_params(self, id.0 as int, start.0 as int, len as int, 0, v));
                let mut i: usize = 0;
                while i < params.len()
                    invariant
                        self.wf(),
                        i <= params@.len(),
                        params@.len() == len,
                        params@ == self.type_params@.subrange(start.0 as int, start.0 + len),
                        self.params_below(start.0 as int, len as int, id.0 as int),
                        id.0 < self.types@.len(),
                        distinct_vars(vars@),
                        prefix_of(old(vars)@, vars@),
                        gathered_params(self, vars@, old(vars)@, id.0 as int, start.0 as int, len as int, i as int),
                    decreases params@.len() - i,
                {
                    assert(params@[i as int] == self.type_params@[start.0 + i]);
                    assert(self.type_params@[start.0 + i].0 < id.0);
                    let ghost before = vars@;
                    self.collect_free_vars(params[i], vars);
                    proof {
                        lemma_gathered_params_step(self, before, vars@, old(vars)@, id.0 as int, start.0 as int, len as int, i as int);
                        lemma_prefix_trans(old(vars)@, before, vars@);
                    }
                    i = i + 1;
                }
                proof {
                    assert forall|v: usize| #[trigger] has_var(vars@, v) <==> (has_var(old(vars)@, v)
                        || var_occurs(self, id.0 as int, v)) by {
                        assert(!var_occurs_params(self, id.0 as int, start.0 as int, len as int, len as int, v));
                        assert(has_var(vars@, v) || var_occurs_params(self, id.0 as int, start.0 as int, len as int, len as int, v)
                            <==> has_var(old(vars)@, v) || var_occurs_params(self, id.0 as int, start.0 as int, len as int, 0, v));
                    }
                }
            },
            Type::Row(start, len, rest_id, _) => {
                let fields = self.get_row_fields(start.0, len);
                let mut i: usize = 0;
                while i < fields.len()
                    invariant
                        self.wf(),
                        i <= fields@.len(),
                        fields@.len() == len,
                        fields@ == self.row_fields@.subrange(start.0 as int, start.0 + len),
                        self.row_below(start.0 as int, len as int, id.0 as int),
                        id.0 < self.types@.len(),
                        distinct_vars(vars@),
                        prefix_of(old(vars)@, vars@),
                        gathered_row(self, vars@, old(vars)@, id.0 as int, start.0 as int, len as int, i as int),
                    decreases fields@.len() - i,
                {
                    assert(fields@[i as int] == self.row_fields@[start.0 + i]);
                    assert(self.row_fields@[start.0 + i].field_type.0 < id.0);
                    let ghost before = vars@;
                    self.collect_free_vars(fields[i].field_type, vars);
                    proof {
                        lemma_gathered_row_step(self, before, vars@, old(vars)@, id.0 as int, start.0 as int, len as int, i as int);
                        lemma_prefix_trans(old(vars)@, before, vars@);
                    }
                    i = i + 1;
                }
                let ghost before = vars@;
                self.collect_free_vars(rest_id, vars);
                proof {
                    assert forall|v: usize| #[trigger] has_var(vars@, v) <==> (has_var(old(vars)@, v)
                        || var_occurs(self, id.0 as int, v)) by {
                        assert(!var_occurs_row(self, id.0 as int, start.0 as int, len as int, len as int, v));
                        assert(has_var(before, v) || var_occurs_row(self, id.0 as int, start.0 as int, len as int, len as int, v)
                            <==> has_var(old(vars)@, v) || var_occurs_row(self, id.0 as int, start.0 as int, len as int, 0, v));
                    }
                    lemma_prefix_trans(old(vars)@, before, vars@);
                }
            },
            _ => {},
        }
    }
}

/// The variables of `vars` ordered by number, one for each number that occurs.
pub fn sorted_vars(vars: &Vec<TypeVarId>) -> (r: Vec<TypeVarId>)
    ensures
        forall|i: int, j: int| 0 <= i < j < r@.len() ==> r@[i].0 < r@[j].0,
        forall|k: int| 0 <= k < r@.len() ==> vars@.contains(#[trigger] r@[k]),
        forall|v: usize| #[trigger] has_var(r@, v) <==> has_var(vars@, v),
{
    let mut r: Vec<TypeVarId> = Vec::new();
    let mut i: usize = 0;
    while i < vars.len()
        invariant
            i <= vars@.len(),
            forall|a: int, b: int| 0 <= a < b < r@.len() ==> r@[a].0 < r@[b].0,
            forall|k: int| 0 <= k < r@.len() ==> vars@.contains(#[trigger] r@[k]),
            forall|x: usize| #[trigger] has_var(r@, x) <==> exists|k: int| 0 <= k < i && vars@[k].0 == x,
        decreases vars@.len() - i,
    {
        let v = vars[i];
        let mut p: usize = 0;
        while p < r.len() && r[p].0 < v.0
            invariant
                p <= r@.len(),
                forall|q: int| 0 <= q < p ==> r@[q].0 < v.0,
            decreases r@.len() - p,
        {
            p = p + 1;
        }
        let ghost old_r = r@;
        if p < r.len() && r[p].0 == v.0 {
            proof {
                assert forall|x: usize| #[trigger] has_var(r@, x) <==> exists|k: int| 0 <= k < i + 1 && vars@[k].0 == x by {
                    if x == v.0 {
                        assert(r@[p as int].0 == x);
                        assert(vars@[i as int].0 == x);
                    } else {
                        if exists|k: int| 0 <= k < i + 1 && vars@[k].0 == x {
                            let k = choose|k: int| 0 <= k < i + 1 && vars@[k].0 == x;
                            assert(k < i);
                        }
                    }
                }
            }
        } else {
            r.insert(p, v);
            proof {
                assert(vars@.contains(vars@[i as int]));
                assert forall|q: int| 0 <= q < r@.len() implies #[trigger] r@[q] == (if q < p {
                    old_r[q]
                } else if q == p {
                    v
                } else {
                    old_r[q - 1]
                }) by {}
                assert forall|a: int, b: int| 0 <= a < b < r@.len() implies r@[a].0 < r@[b].0 by {
                    if b > p && a == p {
                        assert(old_r[p as int].0 >= v.0);
                        assert(old_r[p as int].0 <= old_r[b - 1].0);
                    }
                    if b > p && a > p {
                        assert(old_r[a - 1].0 < old_r[b - 1].0);
                    }
                }
                assert forall|k: int| 0 <= k < r@.len() implies vars@.contains(#[trigger] r@[k]) by {
                    if k < p {
                        assert(r@[k] == old_r[k]);
                    } else if k > p {
                        assert(r@[k] == old_r[k - 1]);
                    }
                }
                assert forall|x: usize| #[trigger] has_var(r@, x) <==> exists|k: int| 0 <= k < i + 1 && vars@[k].0 == x by {
                    if has_var(r@, x) {
                        let q = choose|q: int| 0 <= q < r@.len() && r@[q].0 == x;
                        if q < p {
                            assert(old_r[q].0 == x);
                            assert(has_var(old_r, x));
                        } else if q > p {
                            assert(old_r[q - 1].0 == x);
                            assert(has_var(old_r, x));
                        } else {
                            assert(vars@[i as int].0 == x);
                        }
                    }
                    if exists|k: int| 0 <= k < i + 1 && vars@[k].0 == x {
                        let k = choose|k: int| 0 <= k < i + 1 && vars@[k].0 == x;
                        if k < i {
                            assert(has_var(old_r, x));
                            let q = choose|q: int| 0 <= q < old_r.len() && old_r[q].0 == x;
                            if q < p {
                                assert(r@[q].0 == x);
                            } else {
                                assert(r@[q + 1].0 == x);
                            }
                        } else {
                            assert(r@[p as int].0 == x);
                        }
                    }
                }
            }
        }
        i = i + 1;
    }
    proof {
        assert forall|x: usize| #[trigger] has_var(r@, x) <==> has_var(vars@, x) by {
            if has_var(r@, x) {
                let k = choose|k: int| 0 <= k < i && vars@[k].0 == x;
            }
        }
    }
    r
}

impl TypeScheme {
    pub fn new(quantified: Vec<TypeVarId>, ty: TypeId) -> (r: Self)
        ensures
            r.quantified@ == quantified@,
            r.ty == ty,
    {
        Self { quantified, ty }
    }

    /// Quantifies the free variables of `ty` that are not among `env_vars`, ordered by number.
    pub fn generalize(type_pool: &Pools, ty: TypeId, env_vars: &Vec<TypeVarId>) -> (r: Self)
        requires
            type_pool.wf(),
            type_pool.valid_type(ty),
        ensures
            r.ty == ty,
            forall|v: usize| #[trigger] has_var(r.quantified@, v) <==> (var_occurs(type_pool, ty.0 as int, v)
                && !has_var(env_vars@, v)),
            forall|i: int, j: int| 0 <= i < j < r.quantified@.len() ==> r.quantified@[i].0 < r.quantified@[j].0,
    {
        let free_in_type = type_pool.free_vars(ty);
        let mut quantified: Vec<TypeVarId> = Vec::new();
        let mut i: usize = 0;
        while i < free_in_type.len()
            invariant
                i <= free_in_type@.len(),
                forall|x: usize| #[trigger] has_var(quantified@, x) <==> ((exists|k: int| 0 <= k < i && free_in_type@[k].0 == x)
                    && !has_var(env_vars@, x)),
            decreases free_in_type@.len() - i,
        {
            let v = free_in_type[i];
            let ghost before = quantified@;
            if !contains_var(env_vars, v.0) {
                quantified.push(v);
            }
            proof {
                assert forall|x: usize| #[trigger] has_var(quantified@, x) <==> ((exists|k: int| 0 <= k < i + 1 && free_in_type@[k].0 == x)
                    && !has_var(env_vars@, x)) by {
                    if has_var(quantified@, x) {
                        let q = choose|q: int| 0 <= q < quantified@.len() && quantified@[q].0 == x;
                        if q < before.len() {
                            assert(before[q] == quantified@[q]);
                            assert(has_var(before, x));
                        } else {
                            assert(free_in_type@[i as int].0 == x);
                        }
                    }
                    if (exists|k: int| 0 <= k < i + 1 && free_in_type@[k].0 == x) && !has_var(env_vars@, x) {
                        let k = choose|k: int| 0 <= k < i + 1 && free_in_type@[k].0 == x;
                        if k < i {
                            assert(has_var(before, x));
                            let q = choose|q: int| 0 <= q < before.len() && before[q].0 == x;
                            assert(quantified@[q] == before[q]);
                        } else {
                            assert(quantified@[quantified@.len() - 1].0 == x);
                        }
                    }
                }
            }
            i = i + 1;
        }
        let sorted = sorted_vars(&quantified);
        proof {
            assert forall|x: usize| #[trigger] has_var(sorted@, x) <==> (var_occurs(type_pool, ty.0 as int, x)
                && !has_var(env_vars@, x)) by {
                assert(has_var(quantified@, x) == has_var(sorted@, x));
                assert(has_var(free_in_type@, x) == var_occurs(type_pool, ty.0 as int, x));
            }
        }
        Self::new(sorted, ty)
    }
}

} // verus!

verus! {

pub proof fn lemma_subst_valid_grow(a: &Pools, b: &Pools, s: Seq<(usize, TypeId)>)
    requires
        subst_valid(a, s),
        a.grows_to(b),
    ensures
        subst_valid(b, s),
{
}

/// The replacement that `subs` gives variable number `v`, if any.
pub open spec fn subst_of(subs: Seq<(usize, TypeId)>, v: usize) -> Option<TypeId> {
    assoc_get(subs, v)
}

/// Type node `r` of `b` is type node `t` of `a` with every variable that `subs` binds
/// replaced by its binding (a variable applied to arguments takes the number of a
/// variable it is bound to, or becomes the binding itself).
pub open spec fn substituted(a: &Pools, t: int, b: &Pools, r: int, subs: Seq<(usize, TypeId)>) -> bool
    decreases t, 1int, 0int,
{
    &&& 0 <= t < a.types@.len()
    &&& 0 <= r < b.types@.len()
    &&& match a.types@[t] {
        Type::Int(_) => b.types@[r] is Int,
        Type::String(_) => b.types@[r] is String,
        Type::Unit(_) => b.types@[r] is Unit,
        Type::EmptyRow(_) => b.types@[r] is EmptyRow,
        Type::Var(v, _) => match subst_of(subs, v.0) {
            Some(x) => r == x.0,
            None => b.types@[r] == Type::Var(TypeVarId(v.0, None), SpanId(0)),
        },
        Type::Arrow(x, y, _) => b.types@[r] matches Type::Arrow(x2, y2, _) && x.0 < t && y.0 < t && substituted(
            a,
            x.0 as int,
            b,
            x2.0 as int,
            subs,
        ) && substituted(a, y.0 as int, b, y2.0 as int, subs),
        Type::DataType(name, s, l, _) => b.types@[r] matches Type::DataType(n2, s2, l2, _) && n2 == name && l2 == l
            && s2.0 + l2 <= b.type_params@.len() && params_substituted(
            a,
            t,
            a.type_params@.subrange(s.0 as int, s.0 + l),
            b,
            b.type_params@.subrange(s2.0 as int, s2.0 + l2),
            l as int,
            subs,
        ),
        Type::TypeApp(v, s, l, _) => {
            let head = match subst_of(subs, v.0) {
                Some(x) => if 0 <= x.0 < b.types@.len() && b.types@[x.0 as int] is Var {
                    Some(b.types@[x.0 as int]->Var_0.0)
                } else {
                    None
                },
                None => Some(v.0),
            };
            match head {
                Some(h) => b.types@[r] matches Type::TypeApp(v2, s2, l2, _) && v2 == TypeVarId(h, None) && l2 == l
                    && s2.0 + l2 <= b.type_params@.len() && params_substituted(
                    a,
                    t,
                    a.type_params@.subrange(s.0 as int, s.0 + l),
                    b,
                    b.type_params@.subrange(s2.0 as int, s2.0 + l2),
                    l as int,
                    subs,
                ),
                None => r == subst_of(subs, v.0).unwrap().0,
            }
        },
        Type::Row(s, l, rest, _) => b.types@[r] matches Type::Row(s2, l2, rest2, _) && l2 == l
            && s2.0 + l2 <= b.row_fields@.len() && rest.0 < t && fields_substituted(
            a,
            t,
            a.row_fields@.subrange(s.0 as int, s.0 + l),
            b,
            b.row_fields@.subrange(s2.0 as int, s2.0 + l2),
            l as int,
            subs,
        ) && substituted(a, rest.0 as int, b, rest2.0 as int, subs),
    }
}

/// The first `n` of types `qs` of `b` are the first `n` of `ps` of `a` substituted.
pub open spec fn params_substituted(
    a: &Pools,
    owner: int,
    ps: Seq<TypeId>,
    b: &Pools,
    qs: Seq<TypeId>,
    n: int,
    subs: Seq<(usize, TypeId)>,
) -> bool
    decreases owner, 0int, n,
{
    if n <= 0 {
        true
    } else {
        &&& params_substituted(a, owner, ps, b, qs, n - 1, subs)
        &&& 0 <= ps[n - 1].0 < owner
        &&& substituted(a, ps[n - 1].0 as int, b, qs[n - 1].0 as int, subs)
    }
}

/// The first `n` of fields `gs` of `b` are the first `n` of `fs` of `a`, with the same
/// names and substituted types.
pub open spec fn fields_substituted(
    a: &Pools,
    owner: int,
    fs: Seq<RowField>,
    b: &Pools,
    gs: Seq<RowField>,
    n: int,
    subs: Seq<(usize, TypeId)>,
) -> bool
    decreases owner, 0int, n,
{
    if n <= 0 {
        true
    } else {
        &&& fields_substituted(a, owner, fs, b, gs, n - 1, subs)
        &&& gs[n - 1].name == fs[n - 1].name
        &&& 0 <= fs[n - 1].field_type.0 < owner
        &&& substituted(a, fs[n - 1].field_type.0 as int, b, gs[n - 1].field_type.0 as int, subs)
    }
}

/// A substitution's result stays one as the target pools grow.
pub proof fn lemma_substituted_grow(a: &Pools, t: int, b: &Pools, c: &Pools, r: int, subs: Seq<(usize, TypeId)>)
    requires
        b.grows_to(c),
        subst_valid(b, subs),
        substituted(a, t, b, r, subs),
    ensures
        substituted(a, t, c, r, subs),
    decreases t, 1int, 0int,
{
    assert(c.types@[r] == b.types@[r]);
    match a.types@[t] {
        Type::Arrow(x, y, _) => {
            let (x2, y2) = match b.types@[r] {
                Type::Arrow(x2, y2, _) => (x2, y2),
                _ => (x, y),
            };
            lemma_substituted_grow(a, x.0 as int, b, c, x2.0 as int, subs);
            lemma_substituted_grow(a, y.0 as int, b, c, y2.0 as int, subs);
        },
        Type::DataType(name, s, l, _) => {
            if let Type::DataType(n2, s2, l2, _) = b.types@[r] {
                assert(c.type_params@.subrange(s2.0 as int, s2.0 + l2) =~= b.type_params@.subrange(s2.0 as int, s2.0 + l2));
                lemma_params_substituted_grow(a, t, a.type_params@.subrange(s.0 as int, s.0 + l), b, c,
                    b.type_params@.subrange(s2.0 as int, s2.0 + l2), l as int, subs);
            }
        },
        Type::TypeApp(v, s, l, _) => {
            crate::pools::lemma_assoc_index(subs, v.0);
            if let Some(x) = subst_of(subs, v.0) {
                assert(subs[crate::pools::assoc_index(subs, v.0)].1.0 < b.types@.len());
                assert(c.types@[x.0 as int] == b.types@[x.0 as int]);
            }
            if let Type::TypeApp(v2, s2, l2, _) = b.types@[r] {
                if s2.0 + l2 <= b.type_params@.len() {
                    assert(c.type_params@.subrange(s2.0 as int, s2.0 + l2) =~= b.type_params@.subrange(s2.0 as int, s2.0 + l2));
                    if params_substituted(a, t, a.type_params@.subrange(s.0 as int, s.0 + l), b,
                        b.type_params@.subrange(s2.0 as int, s2.0 + l2), l as int, subs) {
                        lemma_params_substituted_grow(a, t, a.type_params@.subrange(s.0 as int, s.0 + l), b, c,
                            b.type_params@.subrange(s2.0 as int, s2.0 + l2), l as int, subs);
                    }
                }
            }
        },
        Type::Row(s, l, rest, _) => {
            if let Type::Row(s2, l2, rest2, _) = b.types@[r] {
                assert(c.row_fields@.subrange(s2.0 as int, s2.0 + l2) =~= b.row_fields@.subrange(s2.0 as int, s2.0 + l2));
                lemma_fields_substituted_grow(a, t, a.row_fields@.subrange(s.0 as int, s.0 + l), b, c,
                    b.row_fields@.subrange(s2.0 as int, s2.0 + l2), l as int, subs);
                lemma_substituted_grow(a, rest.0 as int, b, c, rest2.0 as int, subs);
            }
        },
        _ => {},
    }
}

pub proof fn lemma_params_substituted_grow(
    a: &Pools,
    owner: int,
    ps: Seq<TypeId>,
    b: &Pools,
    c: &Pools,
    qs: Seq<TypeId>,
    n: int,
    subs: Seq<(usize, TypeId)>,
)
    requires
        b.grows_to(c),
        subst_valid(b, subs),
        params_substituted(a, owner, ps, b, qs, n, subs),
    ensures
        params_substituted(a, owner, ps, c, qs, n, subs),
    decreases owner, 0int, n,
{
    if n > 0 {
        lemma_params_substituted_grow(a, owner, ps, b, c, qs, n - 1, subs);
        lemma_substituted_grow(a, ps[n - 1].0 as int, b, c, qs[n - 1].0 as int, subs);
    }
}

pub proof fn lemma_fields_substituted_grow(
    a: &Pools,
    owner: int,
    fs: Seq<RowField>,
    b: &Pools,
    c: &Pools,
    gs: Seq<RowField>,
    n: int,
    subs: Seq<(usize, TypeId)>,
)
    requires
        b.grows_to(c),
        subst_valid(b, subs),
        fields_substituted(a, owner, fs, b, gs, n, subs),
    ensures
        fields_substituted(a, owner, fs, c, gs, n, subs),
    decreases owner, 0int, n,
{
    if n > 0 {
        lemma_fields_substituted_grow(a, owner, fs, b, c, gs, n - 1, subs);
        lemma_substituted_grow(a, fs[n - 1].field_type.0 as int, b, c, gs[n - 1].field_type.0 as int, subs);
    }
}

/// Whether a substitution's result is one does not change as the source pools grow.
pub proof fn lemma_substituted_source(a: &Pools, a2: &Pools, t: int, b: &Pools, r: int, subs: Seq<(usize, TypeId)>)
    requires
        a.wf(),
        a.grows_to(a2),
        0 <= t < a.types@.len(),
    ensures
        substituted(a2, t, b, r, subs) == substituted(a, t, b, r, subs),
    decreases t, 1int, 0int,
{
    assert(a2.types@[t] == a.types@[t]);
    assert(a.type_node_ok(a.types@[t], t));
    match a.types@[t] {
        Type::Arrow(x, y, _) => {
            if let Type::Arrow(x2, y2, _) = b.types@[r] {
                lemma_substituted_source(a, a2, x.0 as int, b, x2.0 as int, subs);
                lemma_substituted_source(a, a2, y.0 as int, b, y2.0 as int, subs);
            }
        },
        Type::DataType(name, s, l, _) => {
            assert(a2.type_params@.subrange(s.0 as int, s.0 + l) =~= a.type_params@.subrange(s.0 as int, s.0 + l));
            if let Type::DataType(n2, s2, l2, _) = b.types@[r] {
                lemma_params_substituted_source(a, a2, t, a.type_params@.subrange(s.0 as int, s.0 + l), b,
                    b.type_params@.subrange(s2.0 as int, s2.0 + l2), l as int, subs);
            }
        },
        Type::TypeApp(v, s, l, _) => {
            assert(a2.type_params@.subrange(s.0 as int, s.0 + l) =~= a.type_params@.subrange(s.0 as int, s.0 + l));
            if let Type::TypeApp(v2, s2, l2, _) = b.types@[r] {
                lemma_params_substituted_source(a, a2, t, a.type_params@.subrange(s.0 as int, s.0 + l), b,
                    b.type_params@.subrange(s2.0 as int, s2.0 + l2), l as int, subs);
            }
        },
        Type::Row(s, l, rest, _) => {
            assert(a2.row_fields@.subrange(s.0 as int, s.0 + l) =~= a.row_fields@.subrange(s.0 as int, s.0 + l));
            if let Type::Row(s2, l2, rest2, _) = b.types@[r] {
                lemma_fields_substituted_source(a, a2, t, a.row_fields@.subrange(s.0 as int, s.0 + l), b,
                    b.row_fields@.subrange(s2.0 as int, s2.0 + l2), l as int, subs);
                lemma_substituted_source(a, a2, rest.0 as int, b, rest2.0 as int, subs);
            }
        },
        _ => {},
    }
}

pub proof fn lemma_params_substituted_source(
    a: &Pools,
    a2: &Pools,
    owner: int,
    ps: Seq<TypeId>,
    b: &Pools,
    qs: Seq<TypeId>,
    n: int,
    subs: Seq<(usize, TypeId)>,
)
    requires
        a.wf(),
        a.grows_to(a2),
        0 <= owner < a.types@.len(),
    ensures
        params_substituted(a2, owner, ps, b, qs, n, subs) == params_substituted(a, owner, ps, b, qs, n, subs),
    decreases owner, 0int, n,
{
    if n > 0 {
        lemma_params_substituted_source(a, a2, owner, ps, b, qs, n - 1, subs);
        if 0 <= ps[n - 1].0 < owner {
            lemma_substituted_source(a, a2, ps[n - 1].0 as int, b, qs[n - 1].0 as int, subs);
        }
    }
}

pub proof fn lemma_fields_substituted_source(
    a: &Pools,
    a2: &Pools,
    owner: int,
    fs: Seq<RowField>,
    b: &Pools,
    gs: Seq<RowField>,
    n: int,
    subs: Seq<(usize, TypeId)>,
)
    requires
        a.wf(),
        a.grows_to(a2),
        0 <= owner < a.types@.len(),
    ensures
        fields_substituted(a2, owner, fs, b, gs, n, subs) == fields_substituted(a, owner, fs, b, gs, n, subs),
    decreases owner, 0int, n,
{
    if n > 0 {
        lemma_fields_substituted_source(a, a2, owner, fs, b, gs, n - 1, subs);
        if 0 <= fs[n - 1].field_type.0 < owner {
            lemma_substituted_source(a, a2, fs[n - 1].field_type.0 as int, b, gs[n - 1].field_type.0 as int, subs);
        }
    }
}

/// Only the first `n` entries of the target fields matter.
pub proof fn lemma_fields_substituted_prefix(
    a: &Pools,
    owner: int,
    fs: Seq<RowField>,
    b: &Pools,
    gs: Seq<RowField>,
    hs: Seq<RowField>,
    n: int,
    subs: Seq<(usize, TypeId)>,
)
    requires
        fields_substituted(a, owner, fs, b, gs, n, subs),
        forall|k: int| 0 <= k < n ==> hs[k] == gs[k],
    ensures
        fields_substituted(a, owner, fs, b, hs, n, subs),
    decreases n,
{
    if n > 0 {
        lemma_fields_substituted_prefix(a, owner, fs, b, gs, hs, n - 1, subs);
    }
}

/// Only the first `n` entries of the target types matter.
pub proof fn lemma_params_substituted_prefix(
    a: &Pools,
    owner: int,
    ps: Seq<TypeId>,
    b: &Pools,
    qs: Seq<TypeId>,
    rs: Seq<TypeId>,
    n: int,
    subs: Seq<(usize, TypeId)>,
)
    requires
        params_substituted(a, owner, ps, b, qs, n, subs),
        forall|k: int| 0 <= k < n ==> rs[k] == qs[k],
    ensures
        params_substituted(a, owner, ps, b, rs, n, subs),
    decreases n,
{
    if n > 0 {
        lemma_params_substituted_prefix(a, owner, ps, b, qs, rs, n - 1, subs);
    }
}

/// `subs` binds exactly the variables `qs`, each to a variable node that `b` added to `a`.
pub open spec fn fresh_binding(a: &Pools, b: &Pools, qs: Seq<TypeVarId>, subs: Seq<(usize, TypeId)>) -> bool {
    &&& forall|v: usize| #[trigger] subst_of(subs, v) is Some <==> exists|k: int| 0 <= k < qs.len() && qs[k].0 == v
    &&& forall|v: usize| #[trigger] subst_of(subs, v) matches Some(x) ==> a.types@.len() <= x.0 < b.types@.len()
        && b.types@[x.0 as int] == Type::Var(TypeVarId((a.next_type_var + (x.0 - a.types@.len())) as usize, None), SpanId(0))
    &&& forall|v1: usize, v2: usize| v1 != v2 && #[trigger] subst_of(subs, v1) is Some && #[trigger] subst_of(subs, v2) is Some
        ==> subst_of(subs, v1) != subst_of(subs, v2)
}

impl TypeScheme {
    /// Replaces each quantified variable by a fresh variable.
    pub fn instantiate(&self, type_pool: &mut Pools) -> (r: TypeId)
        requires
            old(type_pool).wf(),
            old(type_pool).valid_type(self.ty),
            old(type_pool).next_type_var + self.quantified@.len() < usize::MAX,
        ensures
            final(type_pool).wf(),
            old(type_pool).only_types_grow(final(type_pool)),
            final(type_pool).valid_type(r),
            final(type_pool).next_type_var == old(type_pool).next_type_var + self.quantified@.len(),
            exists|subs: Seq<(usize, TypeId)>| #[trigger] fresh_binding(old(type_pool), final(type_pool), self.quantified@, subs)
                && substituted(old(type_pool), self.ty.0 as int, final(type_pool), r.0 as int, subs),
    {
        let mut substitutions: Vec<(usize, TypeId)> = Vec::new();
        let mut i: usize = 0;
        while i < self.quantified.len()
            invariant
                i <= self.quantified@.len(),
                type_pool.wf(),
                old(type_pool).only_types_grow(type_pool),
                type_pool.next_type_var == old(type_pool).next_type_var + i,
                old(type_pool).next_type_var + self.quantified@.len() < usize::MAX,
                subst_valid(type_pool, substitutions@),
                old(type_pool).valid_type(self.ty),
                fresh_binding(old(type_pool), type_pool, self.quantified@.subrange(0, i as int), substitutions@),
                type_pool.types@.len() == old(type_pool).types@.len() + i,
            decreases self.quantified@.len() - i,
        {
            let ghost p0 = *type_pool;
            let fresh_var = type_pool.fresh_type_var();
            proof {
                lemma_subst_valid_grow(&p0, &*type_pool, substitutions@);
            }
            let ghost s0 = substitutions@;
            let ghost q = self.quantified@[i as int].0;
            subst_insert(&mut substitutions, self.quantified[i].0, fresh_var);
            proof {
                lemma_subst_put_valid(&*type_pool, s0, self.quantified@[i as int].0, fresh_var);
                let qs0 = self.quantified@.subrange(0, i as int);
                let qs1 = self.quantified@.subrange(0, i + 1);
                assert forall|v: usize| #[trigger] subst_of(substitutions@, v) is Some <==> exists|k: int| 0 <= k < qs1.len() && qs1[k].0 == v by {
                    crate::pools::lemma_assoc_put_get(s0, q, fresh_var, v);
                    if v == q {
                        assert(qs1[i as int].0 == v);
                    } else {
                        if subst_of(s0, v) is Some {
                            let k = choose|k: int| 0 <= k < qs0.len() && qs0[k].0 == v;
                            assert(qs1[k].0 == v);
                        }
                        if exists|k: int| 0 <= k < qs1.len() && qs1[k].0 == v {
                            let k = choose|k: int| 0 <= k < qs1.len() && qs1[k].0 == v;
                            assert(k < i);
                            assert(qs0[k].0 == v);
                        }
                    }
                }
                assert forall|v: usize| #[trigger] subst_of(substitutions@, v) is Some implies old(type_pool).types@.len() <= subst_of(substitutions@, v).unwrap().0
                    < type_pool.types@.len() && type_pool.types@[subst_of(substitutions@, v).unwrap().0 as int] == Type::Var(
                    TypeVarId((old(type_pool).next_type_var + (subst_of(substitutions@, v).unwrap().0 - old(type_pool).types@.len())) as usize, None),
                    SpanId(0),
                ) by {
                    crate::pools::lemma_assoc_put_get(s0, q, fresh_var, v);
                    if v != q {
                        if let Some(x) = subst_of(s0, v) {
                            assert(type_pool.types@[x.0 as int] == p0.types@[x.0 as int]);
                        }
                    }
                }
                assert forall|v1: usize, v2: usize| v1 != v2 && #[trigger] subst_of(substitutions@, v1) is Some && #[trigger] subst_of(substitutions@, v2) is Some
                    implies subst_of(substitutions@, v1) != subst_of(substitutions@, v2) by {
                    crate::pools::lemma_assoc_put_get(s0, q, fresh_var, v1);
                    crate::pools::lemma_assoc_put_get(s0, q, fresh_var, v2);
                    if v1 != q {
                        assert(subst_of(s0, v1) is Some);
                        assert(subst_of(s0, v1).unwrap().0 < p0.types@.len());
                    }
                    if v2 != q {
                        assert(subst_of(s0, v2) is Some);
                        assert(subst_of(s0, v2).unwrap().0 < p0.types@.len());
                    }
                    if v1 != q && v2 != q {
                        assert(subst_of(s0, v1) != subst_of(s0, v2));
                    }
                }
            }
            i = i + 1;
        }
        let ghost mid = *type_pool;
        let r = Self::substitute_type_vars(type_pool, self.ty, &substitutions);
        proof {
            assert(self.quantified@.subrange(0, self.quantified@.len() as int) =~= self.quantified@);
            lemma_substituted_source(&*old(type_pool), &mid, self.ty.0 as int, &*type_pool, r.0 as int, substitutions@);
            assert forall|v: usize| #[trigger] subst_of(substitutions@, v) is Some implies old(type_pool).types@.len() <= subst_of(substitutions@, v).unwrap().0
                < type_pool.types@.len() && type_pool.types@[subst_of(substitutions@, v).unwrap().0 as int] == Type::Var(
                TypeVarId((old(type_pool).next_type_var + (subst_of(substitutions@, v).unwrap().0 - old(type_pool).types@.len())) as usize, None),
                SpanId(0),
            ) by {
                if let Some(x) = subst_of(substitutions@, v) {
                    assert(type_pool.types@[x.0 as int] == mid.types@[x.0 as int]);
                }
            }
            assert(fresh_binding(&*old(type_pool), &*type_pool, self.quantified@, substitutions@));
        }
        r
    }

    /// Rebuilds `ty` with the substitution applied to its variables.
    pub fn substitute_type_vars(pools: &mut Pools, ty: TypeId, substitutions: &Vec<(usize, TypeId)>) -> (r: TypeId)
        requires
            old(pools).wf(),
            old(pools).valid_type(ty),
            subst_valid(old(pools), substitutions@),
        ensures
            final(pools).wf(),
            old(pools).only_types_grow(final(pools)),
            final(pools).valid_type(r),
            final(pools).next_type_var == old(pools).next_type_var,
            substituted(old(pools), ty.0 as int, final(pools), r.0 as int, substitutions@),
        decreases ty.0,
    {
        let ty_val = pools.types[ty.0];
        let ghost p0 = *pools;
        let ghost t = ty.0 as int;
        proof {
            assert(pools.type_node_ok(pools.types@[ty.0 as int], ty.0 as int));
        }
        match ty_val {
            Type::Int(_) => pools.type_int(),
            Type::String(_) => pools.type_string(),
            Type::Unit(_) => pools.type_unit(),
            Type::EmptyRow(_) => pools.type_empty_row(),
            Type::Var(var_id, _) => {
                match subst_lookup(substitutions, var_id.0) {
                    Some(replacement) => {
                        proof {
                            crate::pools::lemma_assoc_index(substitutions@, var_id.0);
                            assert(substitutions@[crate::pools::assoc_index(substitutions@, var_id.0)].1.0 < p0.types@.len());
                        }
                        replacement
                    },
                    None => pools.type_var(var_id.0),
                }
            },
            Type::Arrow(from_id, to_id, _) => {
                let new_from = Self::substitute_type_vars(pools, from_id, substitutions);
                let ghost p1 = *pools;
                proof {
                    lemma_subst_valid_grow(&*old(pools), &*pools, substitutions@);
                }
                let new_to = Self::substitute_type_vars(pools, to_id, substitutions);
                let ghost p2 = *pools;
                let r = pools.type_arrow(new_from, new_to);
                proof {
                    Pools::lemma_grows_trans(&p1, &p2, &*pools);
                    lemma_substituted_grow(&p0, from_id.0 as int, &p1, &*pools, new_from.0 as int, substitutions@);
                    lemma_substituted_source(&p0, &p1, to_id.0 as int, &p2, new_to.0 as int, substitutions@);
                    lemma_substituted_grow(&p0, to_id.0 as int, &p2, &*pools, new_to.0 as int, substitutions@);
                }
                r
            },
            Type::DataType(name, start, len, _) => {
                let new_params = Self::substitute_params(pools, start.0, len, ty.0, substitutions);
                let ghost p1 = *pools;
                let tp_len = pools.type_params.len();
                let r = pools.data_type(name, new_params.as_slice());
                proof {
                    let s2 = p1.type_params@.len() as int;
                    assert(tp_len as int == s2);
                    assert(pools.type_params@.subrange(s2, s2 + len) =~= new_params@);
                    lemma_params_substituted_grow(&p0, t, p0.type_params@.subrange(start.0 as int, start.0 + len), &p1,
                        &*pools, new_params@, len as int, substitutions@);
                }
                r
            },
            Type::TypeApp(var_id, start, len, _) => {
                let new_params = Self::substitute_params(pools, start.0, len, ty.0, substitutions);
                let ghost p1 = *pools;
                let tp_len = pools.type_params.len();
                proof {
                    lemma_subst_valid_grow(&p0, &p1, substitutions@);
                }
                let r = match subst_lookup(substitutions, var_id.0) {
                    Some(replacement) => {
                        proof {
                            crate::pools::lemma_assoc_index(substitutions@, var_id.0);
                            assert(substitutions@[crate::pools::assoc_index(substitutions@, var_id.0)].1.0 < p0.types@.len());
                            assert(p1.types@[replacement.0 as int] == p0.types@[replacement.0 as int]);
                        }
                        match pools.types[replacement.0] {
                            Type::Var(new_var_id, _) => pools.type_app(new_var_id.0, new_params.as_slice()),
                            _ => replacement,
                        }
                    },
                    None => pools.type_app(var_id.0, new_params.as_slice()),
                };
                proof {
                    let s2 = p1.type_params@.len() as int;
                    assert(tp_len as int == s2);
                    if pools.types@.len() > p1.types@.len() {
                        assert(pools.type_params@.subrange(s2, s2 + len) =~= new_params@);
                        lemma_params_substituted_grow(&p0, t, p0.type_params@.subrange(start.0 as int, start.0 + len), &p1,
                            &*pools, new_params@, len as int, substitutions@);
                    }
                }
                r
            },
            Type::Row(start, len, rest_id, _) => {
                let fields = pools.get_row_fields(start.0, len);
                let mut new_fields: Vec<RowField> = Vec::new();
                let mut i: usize = 0;
                while i < fields.len()
                    invariant
                        pools.wf(),
                        old(pools).only_types_grow(pools),
                        pools.next_type_var == old(pools).next_type_var,
                        i <= fields@.len(),
                        fields@ == old(pools).row_fields@.subrange(start.0 as int, start.0 + len),
                        old(pools).row_below(start.0 as int, len as int, ty.0 as int),
                        ty.0 < old(pools).types@.len(),
                        subst_valid(old(pools), substitutions@),
                        pools.fields_valid(new_fields@),
                        new_fields@.len() == i,
                        forall|k: int| 0 <= k < i ==> (#[trigger] new_fields@[k]).name == fields@[k].name,
                        p0 == *old(pools),
                        t == ty.0,
                        p0.wf(),
                        fields_substituted(&p0, t, fields@, pools, new_fields@, i as int, substitutions@),
                    decreases fields@.len() - i,
                {
                    assert(fields@[i as int] == old(pools).row_fields@[start.0 + i]);
                    proof {
                        lemma_subst_valid_grow(&*old(pools), &*pools, substitutions@);
                    }
                    let ghost before = *pools;
                    let ghost nf0 = new_fields@;
                    let ft = Self::substitute_type_vars(pools, fields[i].field_type, substitutions);
                    new_fields.push(RowField { name: fields[i].name, field_type: ft });
                    proof {
                        lemma_fields_substituted_grow(&p0, t, fields@, &before, &*pools, nf0, i as int, substitutions@);
                        lemma_substituted_source(&p0, &before, fields@[i as int].field_type.0 as int, &*pools, ft.0 as int, substitutions@);
                        assert forall|k: int| 0 <= k < i implies new_fields@[k] == nf0[k] by {}
                        lemma_fields_substituted_prefix(&p0, t, fields@, &*pools, nf0, new_fields@, i as int, substitutions@);
                    }
                    i = i + 1;
                }
                proof {
                    lemma_subst_valid_grow(&*old(pools), &*pools, substitutions@);
                }
                let ghost p1 = *pools;
                let new_rest = Self::substitute_type_vars(pools, rest_id, substitutions);
                let ghost p2 = *pools;
                let row_len = pools.row_fields.len();
                let r = pools.type_row(new_fields.as_slice(), new_rest);
                proof {
                    Pools::lemma_grows_trans(&p1, &p2, &*pools);
                    lemma_fields_substituted_grow(&p0, t, fields@, &p1, &*pools, new_fields@, len as int, substitutions@);
                    let s2 = p2.row_fields@.len() as int;
                    assert(pools.row_fields@.subrange(s2, s2 + len) =~= new_fields@);
                    lemma_substituted_source(&p0, &p1, rest_id.0 as int, &p2, new_rest.0 as int, substitutions@);
                    lemma_substituted_grow(&p0, rest_id.0 as int, &p2, &*pools, new_rest.0 as int, substitutions@);
                    assert(i == len);
                    assert(fields_substituted(&p0, t, fields@, &*pools, new_fields@, len as int, substitutions@));
                    assert(fields_substituted(&p0, t, p0.row_fields@.subrange(start.0 as int, start.0 + len), &*pools,
                        pools.row_fields@.subrange(s2, s2 + len), len as int, substitutions@));
                    assert(row_len as int == s2);
                    if let Type::Row(s2x, l2x, rest2x, _) = pools.types@[r.0 as int] {
                        assert(s2x.0 == row_len);
                        assert(l2x == len);
                        assert(pools.row_fields@.subrange(s2x.0 as int, s2x.0 + l2x) =~= new_fields@);
                        assert(fields@ =~= p0.row_fields@.subrange(start.0 as int, start.0 + len));
                        assert(fields_substituted(&p0, t, p0.row_fields@.subrange(start.0 as int, start.0 + len), &*pools,
                            pools.row_fields@.subrange(s2x.0 as int, s2x.0 + l2x), len as int, substitutions@));
                    }
                }
                r
            },
        }
    }

    /// Rebuilds the parameters `start..start+len` (all below `bound`) of a node.
    fn substitute_params(
        pools: &mut Pools,
        start: usize,
        len: usize,
        bound: usize,
        substitutions: &Vec<(usize, TypeId)>,
    ) -> (r: Vec<TypeId>)
        requires
            old(pools).wf(),
            old(pools).params_below(start as int, len as int, bound as int),
            bound < old(pools).types@.len(),
            subst_valid(old(pools), substitutions@),
        ensures
            final(pools).wf(),
            old(pools).only_types_grow(final(pools)),
            final(pools).all_valid_types(r@),
            r@.len() == len,
            final(pools).next_type_var == old(pools).next_type_var,
            params_substituted(old(pools), bound as int, old(pools).type_params@.subrange(start as int, start + len), final(pools), r@, len as int, substitutions@),
        decreases bound, 0nat,
    {
        let ghost p0 = *pools;
        let params = pools.get_data_type_params(start, len);
        let mut new_params: Vec<TypeId> = Vec::new();
        let mut i: usize = 0;
        while i < params.len()
            invariant
                pools.wf(),
                old(pools).only_types_grow(pools),
                pools.next_type_var == old(pools).next_type_var,
                i <= params@.len(),
                params@ == old(pools).type_params@.subrange(start as int, start + len),
                old(pools).params_below(start as int, len as int, bound as int),
                bound < old(pools).types@.len(),
                subst_valid(old(pools), substitutions@),
                pools.all_valid_types(new_params@),
                new_params@.len() == i,
                p0 == *old(pools),
                p0.wf(),
                params_substituted(&p0, bound as int, params@, pools, new_params@, i as int, substitutions@),
            decreases params@.len() - i,
        {
            assert(params@[i as int] == old(pools).type_params@[start + i]);
            assert(old(pools).type_params@[start + i].0 < bound);
            proof {
                lemma_subst_valid_grow(&*old(pools), &*pools, substitutions@);
            }
            let ghost before = *pools;
            let ghost np0 = new_params@;
            let p = Self::substitute_type_vars(pools, params[i], substitutions);
            new_params.push(p);
            proof {
                lemma_params_substituted_grow(&p0, bound as int, params@, &before, &*pools, np0, i as int, substitutions@);
                lemma_substituted_source(&p0, &before, params@[i as int].0 as int, &*pools, p.0 as int, substitutions@);
                lemma_params_substituted_prefix(&p0, bound as int, params@, &*pools, np0, new_params@, i as int, substitutions@);
            }
            i = i + 1;
        }
        new_params
    }
}


} // verus!

verus! {

// ----- rendering -----------------------------------------------------------

/// How a type variable shows: its own name, or `α` and the number the mapping
/// gives it; an unnamed variable not yet in the mapping gets number `next`,
/// which is then used up.
pub open spec fn var_text(p: &Pools, v: TypeVarId, m: Seq<(usize, usize)>, next: nat) -> (
    Seq<char>,
    Seq<(usize, usize)>,
    nat,
) {
    match v.1 {
        Some(name) => (p.interner.text_of(name), m, next),
        None => match assoc_get(m, v.0) {
            Some(n) => (seq!['α'] + nat_digits(n as nat), m, next),
            None => (
                seq!['α'] + nat_digits(next),
                m.push((v.0, next as usize)),
                if next < usize::MAX { next + 1 } else { next },
            ),
        },
    }
}

/// A parameter is shown in parentheses when it is a function type or an
/// applied constructor or variable.
pub open spec fn param_needs_parens_spec(p: &Pools, t: int) -> bool {
    0 <= t < p.types@.len() && match p.types@[t] {
        Type::Arrow(..) => true,
        Type::DataType(_, _, n, _) => n > 0,
        Type::TypeApp(_, _, n, _) => n > 0,
        _ => false,
    }
}

/// Type `t` in surface syntax, with the mapping and next number after it:
/// `A → B` (the argument in parentheses when it is itself a function type),
/// constructors and variables followed by their parameters, rows as
/// `{f: τ, ...rest}`.
pub open spec fn type_text(p: &Pools, t: int, m: Seq<(usize, usize)>, next: nat) -> (
    Seq<char>,
    Seq<(usize, usize)>,
    nat,
)
    decreases t, 1int, 0int,
{
    if t < 0 || t >= p.types@.len() {
        (Seq::empty(), m, next)
    } else {
        match p.types@[t] {
            Type::Int(_) => ("Int"@, m, next),
            Type::String(_) => ("String"@, m, next),
            Type::Unit(_) => ("()"@, m, next),
            Type::Var(v, _) => var_text(p, v, m, next),
            Type::Arrow(a, b, _) => if a.0 < t && b.0 < t {
                let ra = type_text(p, a.0 as int, m, next);
                let rb = type_text(p, b.0 as int, ra.1, ra.2);
                let left = if p.types@[a.0 as int] is Arrow {
                    seq!['('] + ra.0 + ") → "@
                } else {
                    ra.0 + " → "@
                };
                (left + rb.0, rb.1, rb.2)
            } else {
                (Seq::empty(), m, next)
            },
            Type::DataType(name, start, len, _) => {
                let rp = params_text(p, t, start.0 as int, len as int, 0, m, next);
                (p.interner.text_of(name) + rp.0, rp.1, rp.2)
            },
            Type::TypeApp(v, start, len, _) => {
                let rv = var_text(p, v, m, next);
                let rp = params_text(p, t, start.0 as int, len as int, 0, rv.1, rv.2);
                (rv.0 + rp.0, rp.1, rp.2)
            },
            Type::EmptyRow(_) => ("{}"@, m, next),
            Type::Row(start, len, rest, _) => {
                let rf = row_text(p, t, start.0 as int, len as int, 0, m, next);
                if rest.0 < t && !(p.types@[rest.0 as int] is EmptyRow) {
                    let rr = type_text(p, rest.0 as int, rf.1, rf.2);
                    (
                        seq!['{'] + rf.0 + (if len > 0 { ", "@ } else { Seq::empty() }) + "..."@ + rr.0 + seq!['}'],
                        rr.1,
                        rr.2,
                    )
                } else if rest.0 < t {
                    (seq!['{'] + rf.0 + seq!['}'], rf.1, rf.2)
                } else {
                    (seq!['{'] + rf.0, rf.1, rf.2)
                }
            },
        }
    }
}

/// The parameters `i..len` of the run at `start`, each preceded by a space.
pub open spec fn params_text(p: &Pools, parent: int, start: int, len: int, i: int, m: Seq<(usize, usize)>, next: nat) -> (
    Seq<char>,
    Seq<(usize, usize)>,
    nat,
)
    decreases parent, 0int, len - i,
{
    if i >= len || i < 0 || start < 0 || start + len > p.type_params@.len() {
        (Seq::empty(), m, next)
    } else {
        let param = p.type_params@[start + i].0 as int;
        if param < parent {
            let r = type_text(p, param, m, next);
            let here = if param_needs_parens_spec(p, param) {
                seq![' ', '('] + r.0 + seq![')']
            } else {
                seq![' '] + r.0
            };
            let rest = params_text(p, parent, start, len, i + 1, r.1, r.2);
            (here + rest.0, rest.1, rest.2)
        } else {
            (Seq::empty(), m, next)
        }
    }
}

/// The fields `i..len` of the row run at `start` as `name: type`, separated by `, `.
pub open spec fn row_text(p: &Pools, parent: int, start: int, len: int, i: int, m: Seq<(usize, usize)>, next: nat) -> (
    Seq<char>,
    Seq<(usize, usize)>,
    nat,
)
    decreases parent, 0int, len - i,
{
    if i >= len || i < 0 || start < 0 || start + len > p.row_fields@.len() {
        (Seq::empty(), m, next)
    } else {
        let f = p.row_fields@[start + i];
        if f.field_type.0 < parent {
            let r = type_text(p, f.field_type.0 as int, m, next);
            let here = (if i > 0 { ", "@ } else { Seq::empty() }) + p.interner.text_of(f.name) + ": "@ + r.0;
            let rest = row_text(p, parent, start, len, i + 1, r.1, r.2);
            (here + rest.0, rest.1, rest.2)
        } else {
            (Seq::empty(), m, next)
        }
    }
}

/// The mapping that numbers the quantified variables `0..n` in order.
pub open spec fn quantified_mapping(q: Seq<TypeVarId>) -> Seq<(usize, usize)> {
    Seq::new(q.len(), |i: int| (q[i].0, i as usize))
}

/// `α0 α1 ... αk` for the numbers below `n`.
pub open spec fn numbered_vars(n: nat) -> Seq<char>
    decreases n,
{
    if n == 0 {
        Seq::empty()
    } else if n == 1 {
        seq!['α', '0']
    } else {
        numbered_vars((n - 1) as nat) + seq![' ', 'α'] + nat_digits((n - 1) as nat)
    }
}

/// A scheme in surface syntax: `∀α0 ... αk. τ` with its quantified variables
/// numbered first, or just `τ`.
pub open spec fn scheme_text(p: &Pools, s: TypeScheme) -> Seq<char> {
    let q = s.quantified@;
    if q.len() > 0 {
        seq!['∀'] + numbered_vars(q.len()) + ". "@ + type_text(p, s.ty.0 as int, quantified_mapping(q), q.len()).0
    } else {
        type_text(p, s.ty.0 as int, Seq::empty(), 0).0
    }
}

/// Number of a variable in a display mapping (first entry wins).
fn mapping_lookup(mapping: &Vec<(usize, usize)>, v: usize) -> (r: Option<usize>)
    ensures
        r == assoc_get(mapping@, v),
{
    let mut i: usize = 0;
    while i < mapping.len()
        invariant
            i <= mapping.len(),
            forall|j: int| 0 <= j < i ==> mapping@[j].0 != v,
        decreases mapping.len() - i,
    {
        if mapping[i].0 == v {
            proof {
                lemma_assoc_index_first(mapping@, v, i as int);
            }
            return Some(mapping[i].1);
        }
        i = i + 1;
    }
    proof {
        lemma_assoc_index_none(mapping@, v);
    }
    None
}

impl Pools {
    /// The text of a name.
    pub fn name_chars(&self, name: InternedString) -> (r: Vec<char>)
        ensures
            r@ == self.interner.text_of(name),
    {
        self.interner.resolve_chars(name)
    }

    /// Renders a type; unnamed variables are numbered `α0, α1, ...` by first occurrence.
    pub fn display_type(&self, id: TypeId) -> (r: String)
        requires
            self.wf(),
            self.valid_type(id),
        ensures
            r@ == type_text(self, id.0 as int, Seq::empty(), 0).0,
    {
        let out = self.display_type_chars(id);
        chars_to_string(&out)
    }

    pub fn display_type_chars(&self, id: TypeId) -> (r: Vec<char>)
        requires
            self.wf(),
            self.valid_type(id),
        ensures
            r@ == type_text(self, id.0 as int, Seq::empty(), 0).0,
    {
        let mut out: Vec<char> = Vec::new();
        let mut mapping: Vec<(usize, usize)> = Vec::new();
        let mut next_var: usize = 0;
        assert(mapping@ =~= Seq::<(usize, usize)>::empty());
        self.fmt_with_mapping(&mut out, id, &mut mapping, &mut next_var);
        assert(out@ =~= type_text(self, id.0 as int, Seq::empty(), 0).0);
        out
    }

    /// Appends a type variable (`var_text`).
    fn format_type_var(
        &self,
        out: &mut Vec<char>,
        var_id: TypeVarId,
        mapping: &mut Vec<(usize, usize)>,
        next_var: &mut usize,
    )
        ensures
            final(out)@ == old(out)@ + var_text(self, var_id, old(mapping)@, *old(next_var) as nat).0,
            final(mapping)@ == var_text(self, var_id, old(mapping)@, *old(next_var) as nat).1,
            *final(next_var) as nat == var_text(self, var_id, old(mapping)@, *old(next_var) as nat).2,
    {
        let ghost o = out@;
        match var_id.1 {
            Some(name) => {
                let t = self.name_chars(name);
                push_chars(out, &t);
            },
            None => {
                match mapping_lookup(mapping, var_id.0) {
                    Some(n) => {
                        out.push('α');
                        push_usize(out, n);
                        assert(out@ =~= o + var_text(self, var_id, old(mapping)@, *old(next_var) as nat).0);
                    },
                    None => {
                        mapping.push((var_id.0, *next_var));
                        out.push('α');
                        push_usize(out, *next_var);
                        if *next_var < usize::MAX {
                            *next_var = *next_var + 1;
                        }
                        assert(out@ =~= o + var_text(self, var_id, old(mapping)@, *old(next_var) as nat).0);
                    },
                }
            },
        }
    }

    fn param_needs_parens(&self, param_id: TypeId) -> (r: bool)
        requires
            self.valid_type(param_id),
        ensures
            r == param_needs_parens_spec(self, param_id.0 as int),
    {
        match self.types[param_id.0] {
            Type::Arrow(..) => true,
            Type::DataType(_, _, n, _) => n > 0,
            Type::TypeApp(_, _, n, _) => n > 0,
            _ => false,
        }
    }

    /// Appends the parameters `i..len` of the run at `start` (`params_text`).
    fn fmt_params(
        &self,
        out: &mut Vec<char>,
        start: usize,
        len: usize,
        i: usize,
        bound: usize,
        mapping: &mut Vec<(usize, usize)>,
        next_var: &mut usize,
    )
        requires
            self.wf(),
            self.params_below(start as int, len as int, bound as int),
            bound < self.types@.len(),
        ensures
            final(out)@ == old(out)@ + params_text(
                self,
                bound as int,
                start as int,
                len as int,
                i as int,
                old(mapping)@,
                *old(next_var) as nat,
            ).0,
            final(mapping)@ == params_text(
                self,
                bound as int,
                start as int,
                len as int,
                i as int,
                old(mapping)@,
                *old(next_var) as nat,
            ).1,
            *final(next_var) as nat == params_text(
                self,
                bound as int,
                start as int,
                len as int,
                i as int,
                old(mapping)@,
                *old(next_var) as nat,
            ).2,
        decreases bound, 0nat, len - i,
    {
        let ghost o = out@;
        let ghost m0 = mapping@;
        let ghost n0 = *next_var as nat;
        if i >= len {
            assert(out@ =~= o + params_text(self, bound as int, start as int, len as int, i as int, m0, n0).0);
            return ;
        }
        assert(self.type_params@.len() == self.type_params.len());
        let param_id = self.type_params[start + i];
        assert(param_id.0 < bound);
        let ghost r = type_text(self, param_id.0 as int, m0, n0);
        out.push(' ');
        if self.param_needs_parens(param_id) {
            out.push('(');
            self.fmt_with_mapping(out, param_id, mapping, next_var);
            out.push(')');
        } else {
            self.fmt_with_mapping(out, param_id, mapping, next_var);
        }
        let ghost mid = out@;
        self.fmt_params(out, start, len, i + 1, bound, mapping, next_var);
        assert(out@ =~= o + params_text(self, bound as int, start as int, len as int, i as int, m0, n0).0);
    }

    /// Appends the row fields `i..len` of the run at `start` (`row_text`).
    fn fmt_row_fields(
        &self,
        out: &mut Vec<char>,
        start: usize,
        len: usize,
        i: usize,
        bound: usize,
        mapping: &mut Vec<(usize, usize)>,
        next_var: &mut usize,
    )
        requires
            self.wf(),
            self.row_below(start as int, len as int, bound as int),
            bound < self.types@.len(),
        ensures
            final(out)@ == old(out)@ + row_text(
                self,
                bound as int,
                start as int,
                len as int,
                i as int,
                old(mapping)@,
                *old(next_var) as nat,
            ).0,
            final(mapping)@ == row_text(
                self,
                bound as int,
                start as int,
                len as int,
                i as int,
                old(mapping)@,
                *old(next_var) as nat,
            ).1,
            *final(next_var) as nat == row_text(
                self,
                bound as int,
                start as int,
                len as int,
                i as int,
                old(mapping)@,
                *old(next_var) as nat,
            ).2,
        decreases bound, 0nat, len - i,
    {
        let ghost o = out@;
        let ghost m0 = mapping@;
        let ghost n0 = *next_var as nat;
        if i >= len {
            assert(out@ =~= o + row_text(self, bound as int, start as int, len as int, i as int, m0, n0).0);
            return ;
        }
        assert(self.row_fields@.len() == self.row_fields.len());
        let field = self.row_fields[start + i];
        assert(field.field_type.0 < bound);
        if i > 0 {
            push_str(out, ", ");
        }
        let t = self.name_chars(field.name);
        push_chars(out, &t);
        push_str(out, ": ");
        self.fmt_with_mapping(out, field.field_type, mapping, next_var);
        self.fmt_row_fields(out, start, len, i + 1, bound, mapping, next_var);
        assert(out@ =~= o + row_text(self, bound as int, start as int, len as int, i as int, m0, n0).0);
    }

    /// Appends type `id` (`type_text`), numbering unnamed variables through
    /// `mapping` and `next_var`.
    pub fn fmt_with_mapping(
        &self,
        out: &mut Vec<char>,
        id: TypeId,
        mapping: &mut Vec<(usize, usize)>,
        next_var: &mut usize,
    )
        requires
            self.wf(),
            self.valid_type(id),
        ensures
            final(out)@ == old(out)@ + type_text(self, id.0 as int, old(mapping)@, *old(next_var) as nat).0,
            final(mapping)@ == type_text(self, id.0 as int, old(mapping)@, *old(next_var) as nat).1,
            *final(next_var) as nat == type_text(self, id.0 as int, old(mapping)@, *old(next_var) as nat).2,
        decreases id.0, 1nat, 0nat,
    {
        let ghost o = out@;
        let ghost m0 = mapping@;
        let ghost n0 = *next_var as nat;
        let ghost t = id.0 as int;
        let ty = self.types[id.0];
        proof {
            assert(self.type_node_ok(self.types@[id.0 as int], id.0 as int));
        }
        match ty {
            Type::Int(_) => push_str(out, "Int"),
            Type::String(_) => push_str(out, "String"),
            Type::Unit(_) => push_str(out, "()"),
            Type::Var(var_id, _) => self.format_type_var(out, var_id, mapping, next_var),
            Type::Arrow(from_id, to_id, _) => {
                let needs_parens = match self.types[from_id.0] {
                    Type::Arrow(..) => true,
                    _ => false,
                };
                if needs_parens {
                    out.push('(');
                    self.fmt_with_mapping(out, from_id, mapping, next_var);
                    push_str(out, ") → ");
                } else {
                    self.fmt_with_mapping(out, from_id, mapping, next_var);
                    push_str(out, " → ");
                }
                self.fmt_with_mapping(out, to_id, mapping, next_var);
                assert(out@ =~= o + type_text(self, t, m0, n0).0);
            },
            Type::DataType(name, start, len, _) => {
                let n = self.name_chars(name);
                push_chars(out, &n);
                self.fmt_params(out, start.0, len, 0, id.0, mapping, next_var);
                assert(out@ =~= o + type_text(self, t, m0, n0).0);
            },
            Type::TypeApp(var_id, start, len, _) => {
                self.format_type_var(out, var_id, mapping, next_var);
                self.fmt_params(out, start.0, len, 0, id.0, mapping, next_var);
                assert(out@ =~= o + type_text(self, t, m0, n0).0);
            },
            Type::EmptyRow(_) => push_str(out, "{}"),
            Type::Row(start, len, rest_id, _) => {
                out.push('{');
                self.fmt_row_fields(out, start.0, len, 0, id.0, mapping, next_var);
                let rest_is_empty = match self.types[rest_id.0] {
                    Type::EmptyRow(_) => true,
                    _ => false,
                };
                if !rest_is_empty {
                    if len > 0 {
                        push_str(out, ", ");
                    }
                    push_str(out, "...");
                    self.fmt_with_mapping(out, rest_id, mapping, next_var);
                }
                out.push('}');
                assert(out@ =~= o + type_text(self, t, m0, n0).0);
            },
        }
    }
}

impl TypeScheme {
    /// Renders `∀α0 ... αn. τ`, numbering the quantified variables first.
    pub fn display(&self, type_pool: &Pools) -> (r: String)
        requires
            type_pool.wf(),
            type_pool.valid_type(self.ty),
        ensures
            r@ == scheme_text(type_pool, *self),
    {
        let out = self.display_chars(type_pool);
        chars_to_string(&out)
    }

    pub fn display_chars(&self, type_pool: &Pools) -> (r: Vec<char>)
        requires
            type_pool.wf(),
            type_pool.valid_type(self.ty),
        ensures
            r@ == scheme_text(type_pool, *self),
    {
        let mut out: Vec<char> = Vec::new();
        let mut mapping: Vec<(usize, usize)> = Vec::new();
        let mut next_var: usize = 0;
        if self.quantified.len() > 0 {
            let mut i: usize = 0;
            while i < self.quantified.len()
                invariant
                    i <= self.quantified@.len(),
                    next_var == i,
                    mapping@ == quantified_mapping(self.quantified@.subrange(0, i as int)),
                decreases self.quantified@.len() - i,
            {
                mapping.push((self.quantified[i].0, next_var));
                next_var = next_var + 1;
                i = i + 1;
                assert(mapping@ =~= quantified_mapping(self.quantified@.subrange(0, i as int)));
            }
            assert(self.quantified@.subrange(0, self.quantified@.len() as int) =~= self.quantified@);
            out.push('∀');
            let mut k: usize = 0;
            while k < self.quantified.len()
                invariant
                    k <= self.quantified@.len(),
                    out@ == seq!['∀'] + numbered_vars(k as nat),
                decreases self.quantified@.len() - k,
            {
                if k > 0 {
                    out.push(' ');
                }
                out.push('α');
                push_usize(&mut out, k);
                k = k + 1;
                assert(out@ =~= seq!['∀'] + numbered_vars(k as nat));
            }
            push_str(&mut out, ". ");
            let ghost head = out@;
            type_pool.fmt_with_mapping(&mut out, self.ty, &mut mapping, &mut next_var);
            assert(out@ =~= scheme_text(type_pool, *self));
        } else {
            assert(mapping@ =~= Seq::<(usize, usize)>::empty());
            type_pool.fmt_with_mapping(&mut out, self.ty, &mut mapping, &mut next_var);
            assert(out@ =~= scheme_text(type_pool, *self));
        }
        out
    }
}

} // verus!
