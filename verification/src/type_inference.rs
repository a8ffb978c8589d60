//! Type inference with first-class polymorphism and row types.
use vstd::prelude::*;

use crate::dependency_analysis::DefinitionGroup;
use crate::error::RichTypeError;
use crate::expr::{Expr, MatchArms, Pattern};
use crate::pools::{lemma_prefix_trans, prefix_of, DeBruijnIndex, ExprId, PatternId, Pools, SpanId, TypeId, TypeVarId};
use crate::text::{chars_to_string, str_to_chars};
use crate::types::{
    contains_var, distinct_vars, has_var, var_occurs, lemma_subst_put_valid, lemma_subst_valid_grow, subst_insert,
    subst_lookup, subst_valid, RowField, Type, TypeScheme,
};
use crate::InternedString;

verus! {

pub type TypeError = RichTypeError;

/// Depth budget of one unification: the largest machine integer, so that only the
/// machine's own limits end a deep unification.
pub const UNIFY_DEPTH: usize = usize::MAX;

/// The state of inference: the types of bound variables (innermost last), the
/// substitution found so far, and a log of the types given to expressions.
#[derive(Debug, Clone)]
pub struct PooledTypingContext {
    pub type_schemes: Vec<TypeScheme>,
    pub substitutions: Vec<(usize, TypeId)>,
    pub expr_types: Vec<(ExprId, TypeId)>,
}

/// The types recorded for expression `e`, in the order they were recorded.
pub open spec fn types_recorded(s: Seq<(ExprId, TypeId)>, e: ExprId) -> Seq<TypeId>
    decreases s.len(),
{
    if s.len() == 0 {
        Seq::empty()
    } else if s.last().0 == e {
        types_recorded(s.drop_last(), e).push(s.last().1)
    } else {
        types_recorded(s.drop_last(), e)
    }
}

pub open spec fn schemes_valid(pools: &Pools, s: Seq<TypeScheme>) -> bool {
    forall|k: int| 0 <= k < s.len() ==> (#[trigger] s[k]).ty.0 < pools.types@.len()
}

pub open spec fn vars_ok(v: Seq<TypeVarId>) -> bool {
    true
}

/// `Int`, `String` or `Unit`.
pub open spec fn is_base(t: Type) -> bool {
    t is Int || t is String || t is Unit
}

/// Both are the same base type.
pub open spec fn same_base(a: Type, b: Type) -> bool {
    (a is Int && b is Int) || (a is String && b is String) || (a is Unit && b is Unit)
}

/// Following function arrows alone, at most `d` deep, from `x` in `ta` and `y` in `tb`, some
/// position holds two types with different outermost constructors: two different base
/// types, data types of different names or arities, or two of base, function and data type.
pub open spec fn arrow_clash(ta: Seq<Type>, x: int, tb: Seq<Type>, y: int, d: nat) -> bool
    decreases d,
{
    &&& 0 <= x < ta.len()
    &&& 0 <= y < tb.len()
    &&& match (ta[x], tb[y]) {
        (Type::Arrow(x1, x2, _), Type::Arrow(y1, y2, _)) => d > 0 && (arrow_clash(
            ta,
            x1.0 as int,
            tb,
            y1.0 as int,
            (d - 1) as nat,
        ) || arrow_clash(ta, x2.0 as int, tb, y2.0 as int, (d - 1) as nat)),
        (Type::DataType(n1, _, l1, _), Type::DataType(n2, _, l2, _)) => n1 != n2 || l1 != l2,
        (a, b) => is_head(a) && is_head(b) && !same_base(a, b),
    }
}

/// A base type, a function type or a data type: a type whose outermost constructor is fixed.
pub open spec fn is_head(t: Type) -> bool {
    is_base(t) || t is Arrow || t is DataType
}

/// Some clash of `arrow_clash` lies less than `depth` arrows deep.
pub open spec fn types_clash(ta: Seq<Type>, x: int, tb: Seq<Type>, y: int, depth: int) -> bool {
    exists|d: nat| d < depth && #[trigger] arrow_clash(ta, x, tb, y, d)
}

/// A clash stays when either pool of types grows.
pub proof fn lemma_clash_grow(ta: Seq<Type>, ta2: Seq<Type>, x: int, tb: Seq<Type>, tb2: Seq<Type>, y: int, d: nat)
    requires
        prefix_of(ta, ta2),
        prefix_of(tb, tb2),
        arrow_clash(ta, x, tb, y, d),
    ensures
        arrow_clash(ta2, x, tb2, y, d),
    decreases d,
{
    assert(ta2[x] == ta[x] && tb2[y] == tb[y]);
    match (ta[x], tb[y]) {
        (Type::Arrow(x1, x2, _), Type::Arrow(y1, y2, _)) => {
            if arrow_clash(ta, x1.0 as int, tb, y1.0 as int, (d - 1) as nat) {
                lemma_clash_grow(ta, ta2, x1.0 as int, tb, tb2, y1.0 as int, (d - 1) as nat);
            } else {
                lemma_clash_grow(ta, ta2, x2.0 as int, tb, tb2, y2.0 as int, (d - 1) as nat);
            }
        },
        _ => {},
    }
}

/// A clash is symmetric.
pub proof fn lemma_clash_symm(ta: Seq<Type>, x: int, tb: Seq<Type>, y: int, d: nat)
    requires
        arrow_clash(ta, x, tb, y, d),
    ensures
        arrow_clash(tb, y, ta, x, d),
    decreases d,
{
    match (ta[x], tb[y]) {
        (Type::Arrow(x1, x2, _), Type::Arrow(y1, y2, _)) => {
            if arrow_clash(ta, x1.0 as int, tb, y1.0 as int, (d - 1) as nat) {
                lemma_clash_symm(ta, x1.0 as int, tb, y1.0 as int, (d - 1) as nat);
            } else {
                lemma_clash_symm(ta, x2.0 as int, tb, y2.0 as int, (d - 1) as nat);
            }
        },
        _ => {},
    }
}

/// A type never clashes with itself.
pub proof fn lemma_clash_irrefl(t: Seq<Type>, x: int, d: nat)
    ensures
        !arrow_clash(t, x, t, x, d),
    decreases d,
{
    if 0 <= x < t.len() {
        match t[x] {
            Type::Arrow(x1, x2, _) => {
                if d > 0 {
                    lemma_clash_irrefl(t, x1.0 as int, (d - 1) as nat);
                    lemma_clash_irrefl(t, x2.0 as int, (d - 1) as nat);
                }
            },
            _ => {},
        }
    }
}

/// Applying a substitution to the left side keeps a clash.
pub proof fn lemma_clash_applied(
    a: &Pools,
    b: &Pools,
    x: int,
    x2: int,
    subs: Seq<(usize, TypeId)>,
    f: nat,
    tb: Seq<Type>,
    y: int,
    d: nat,
)
    requires
        prefix_of(a.types@, b.types@),
        applied(a, x, b, x2, subs, f),
        arrow_clash(a.types@, x, tb, y, d),
    ensures
        arrow_clash(b.types@, x2, tb, y, d),
    decreases d,
{
    if f == 0 {
        lemma_clash_grow(a.types@, b.types@, x, tb, tb, y, d);
    } else {
        match (a.types@[x], tb[y]) {
            (Type::Arrow(x1, y1, _), Type::Arrow(z1, z2, _)) => {
                let (p1, q1) = match b.types@[x2] {
                    Type::Arrow(p, q, _) => (p, q),
                    _ => (x1, y1),
                };
                if arrow_clash(a.types@, x1.0 as int, tb, z1.0 as int, (d - 1) as nat) {
                    lemma_clash_applied(a, b, x1.0 as int, p1.0 as int, subs, (f - 1) as nat, tb, z1.0 as int, (d - 1) as nat);
                } else {
                    lemma_clash_applied(a, b, y1.0 as int, q1.0 as int, subs, (f - 1) as nat, tb, z2.0 as int, (d - 1) as nat);
                }
            },
            _ => {},
        }
    }
}

/// A protected variable without a binding unifies with anything and gains no binding.
pub open spec fn unbound_protected_var_unifies(
    subst: Seq<(usize, TypeId)>,
    protected: Seq<TypeVarId>,
    a: Type,
    r: Result<(), RichTypeError>,
    subst_after: Seq<(usize, TypeId)>,
) -> bool {
    match a {
        Type::Var(v, _) => crate::pools::assoc_get(subst, v.0) is None && (exists|i: int| 0 <= i < protected.len() && protected[i].0 == v.0)
            ==> r is Ok && subst_after == subst,
        _ => true,
    }
}

/// A free variable without a binding, unified with a base type, becomes bound to that base type.
pub open spec fn unbound_var_binds(
    subst: Seq<(usize, TypeId)>,
    protected: Seq<TypeVarId>,
    a: Type,
    b: Type,
    r: Result<(), RichTypeError>,
    subst_after: Seq<(usize, TypeId)>,
    types_after: Seq<Type>,
) -> bool {
    match a {
        Type::Var(v, _) => crate::pools::assoc_get(subst, v.0) is None && !(exists|i: int| 0 <= i < protected.len() && protected[i].0 == v.0)
            && is_base(b) ==> r is Ok && (crate::pools::assoc_get(subst_after, v.0) matches Some(t) && 0 <= t.0 < types_after.len() && same_base(b, types_after[t.0 as int])),
        _ => true,
    }
}

/// A free variable without a binding, unified with a type that is neither a variable nor a
/// type application, is bound on success, to a type of the other's outermost form.
pub open spec fn unbound_var_bound(
    subst: Seq<(usize, TypeId)>,
    protected: Seq<TypeVarId>,
    a: Type,
    b: Type,
    r: Result<(), RichTypeError>,
    subst_after: Seq<(usize, TypeId)>,
    types_after: Seq<Type>,
) -> bool {
    match a {
        Type::Var(v, _) => crate::pools::assoc_get(subst, v.0) is None && !(exists|i: int| 0 <= i < protected.len() && protected[i].0 == v.0)
            && !(b is Var) && !(b is TypeApp) && r is Ok ==> (crate::pools::assoc_get(subst_after, v.0) matches Some(t) && 0 <= t.0 < types_after.len()
            && same_head(b, types_after[t.0 as int])),
        _ => true,
    }
}

/// A free variable without a binding that fails to unify with a type that is neither a variable
/// nor a type application fails the occurs check: it occurs in the type it met.
pub open spec fn unbound_var_fails_occurs(
    subst: Seq<(usize, TypeId)>,
    protected: Seq<TypeVarId>,
    a: Type,
    b: Type,
    r: Result<(), RichTypeError>,
    p_after: &Pools,
    subst_after: Seq<(usize, TypeId)>,
) -> bool {
    match a {
        Type::Var(v, _) => crate::pools::assoc_get(subst, v.0) is None && !(exists|i: int| 0 <= i < protected.len() && protected[i].0 == v.0)
            && !(b is Var) && !(b is TypeApp) && r is Err ==> (r matches Err(RichTypeError::OccursCheck(info)) && info.var.0 == v.0
            && occurs_walk(p_after, subst_after, v.0, info.in_type.0 as int, no_marks(p_after.types@.len()), p_after.types@.len()).0),
        _ => true,
    }
}

/// A protected variable without a binding, met as the second type by a type that is neither a
/// variable nor a type application, unifies with it and gains no binding.
pub open spec fn protected_second_unifies(
    subst: Seq<(usize, TypeId)>,
    protected: Seq<TypeVarId>,
    a: Type,
    b: Type,
    r: Result<(), RichTypeError>,
    subst_after: Seq<(usize, TypeId)>,
) -> bool {
    match b {
        Type::Var(v, _) => crate::pools::assoc_get(subst, v.0) is None && (exists|i: int| 0 <= i < protected.len() && protected[i].0 == v.0)
            && !(a is Var) && !(a is TypeApp) ==> r is Ok && subst_after == subst,
        _ => true,
    }
}

/// Type node `r` of `b` is type node `t` of `a` with the substitution `subs` applied
/// throughout, following bound variables `fuel` levels deep (at no fuel, `r` is `t`).
pub open spec fn applied(a: &Pools, t: int, b: &Pools, r: int, subs: Seq<(usize, TypeId)>, fuel: nat) -> bool
    decreases fuel, 0int, 0int,
{
    if fuel == 0 {
        r == t
    } else {
        &&& 0 <= t < a.types@.len()
        &&& 0 <= r < b.types@.len()
        &&& match a.types@[t] {
            Type::Int(_) => b.types@[r] is Int,
            Type::String(_) => b.types@[r] is String,
            Type::Unit(_) => b.types@[r] is Unit,
            Type::EmptyRow(_) => b.types@[r] is EmptyRow,
            Type::Var(v, _) => match crate::types::subst_of(subs, v.0) {
                Some(x) => applied(a, x.0 as int, b, r, subs, (fuel - 1) as nat),
                None => b.types@[r] == Type::Var(TypeVarId(v.0, None), SpanId(0)),
            },
            Type::Arrow(x, y, _) => b.types@[r] matches Type::Arrow(x2, y2, _) && applied(
                a,
                x.0 as int,
                b,
                x2.0 as int,
                subs,
                (fuel - 1) as nat,
            ) && applied(a, y.0 as int, b, y2.0 as int, subs, (fuel - 1) as nat),
            Type::DataType(name, s, l, _) => b.types@[r] matches Type::DataType(n2, s2, l2, _) && n2 == name && l2 == l
                && s2.0 + l2 <= b.type_params@.len() && params_applied(
                a,
                a.type_params@.subrange(s.0 as int, s.0 + l),
                b,
                b.type_params@.subrange(s2.0 as int, s2.0 + l2),
                l as int,
                subs,
                (fuel - 1) as nat,
            ),
            Type::TypeApp(v, s, l, _) => match crate::types::subst_of(subs, v.0) {
                Some(x) => applied(a, x.0 as int, b, r, subs, (fuel - 1) as nat),
                None => b.types@[r] matches Type::TypeApp(v2, s2, l2, _) && v2 == TypeVarId(v.0, None) && l2 == l
                    && s2.0 + l2 <= b.type_params@.len() && params_applied(
                    a,
                    a.type_params@.subrange(s.0 as int, s.0 + l),
                    b,
                    b.type_params@.subrange(s2.0 as int, s2.0 + l2),
                    l as int,
                    subs,
                    (fuel - 1) as nat,
                ),
            },
            Type::Row(s, l, rest, _) => b.types@[r] matches Type::Row(s2, l2, rest2, _) && l2 == l
                && s2.0 + l2 <= b.row_fields@.len() && fields_applied(
                a,
                a.row_fields@.subrange(s.0 as int, s.0 + l),
                b,
                b.row_fields@.subrange(s2.0 as int, s2.0 + l2),
                l as int,
                subs,
                (fuel - 1) as nat,
            ) && applied(a, rest.0 as int, b, rest2.0 as int, subs, (fuel - 1) as nat),
        }
    }
}

/// The first `n` of types `qs` of `b` are the first `n` of `ps` of `a` with the substitution applied.
pub open spec fn params_applied(
    a: &Pools,
    ps: Seq<TypeId>,
    b: &Pools,
    qs: Seq<TypeId>,
    n: int,
    subs: Seq<(usize, TypeId)>,
    fuel: nat,
) -> bool
    decreases fuel, 1int, n,
{
    if n <= 0 {
        true
    } else {
        params_applied(a, ps, b, qs, n - 1, subs, fuel) && applied(a, ps[n - 1].0 as int, b, qs[n - 1].0 as int, subs, fuel)
    }
}

/// The first `n` of fields `gs` of `b` are the first `n` of `fs` of `a`, with the same
/// names and the substitution applied to their types.
pub open spec fn fields_applied(
    a: &Pools,
    fs: Seq<RowField>,
    b: &Pools,
    gs: Seq<RowField>,
    n: int,
    subs: Seq<(usize, TypeId)>,
    fuel: nat,
) -> bool
    decreases fuel, 1int, n,
{
    if n <= 0 {
        true
    } else {
        &&& fields_applied(a, fs, b, gs, n - 1, subs, fuel)
        &&& gs[n - 1].name == fs[n - 1].name
        &&& applied(a, fs[n - 1].field_type.0 as int, b, gs[n - 1].field_type.0 as int, subs, fuel)
    }
}

proof fn lemma_applied_grow(a: &Pools, t: int, b: &Pools, c: &Pools, r: int, subs: Seq<(usize, TypeId)>, fuel: nat)
    requires
        b.grows_to(c),
        applied(a, t, b, r, subs, fuel),
    ensures
        applied(a, t, c, r, subs, fuel),
    decreases fuel, 0int, 0int,
{
    if fuel > 0 {
        assert(c.types@[r] == b.types@[r]);
        match a.types@[t] {
            Type::Var(v, _) => {
                if let Some(x) = crate::types::subst_of(subs, v.0) {
                    lemma_applied_grow(a, x.0 as int, b, c, r, subs, (fuel - 1) as nat);
                }
            },
            Type::Arrow(x, y, _) => {
                if let Type::Arrow(x2, y2, _) = b.types@[r] {
                    lemma_applied_grow(a, x.0 as int, b, c, x2.0 as int, subs, (fuel - 1) as nat);
                    lemma_applied_grow(a, y.0 as int, b, c, y2.0 as int, subs, (fuel - 1) as nat);
                }
            },
            Type::DataType(_, s, l, _) => {
                if let Type::DataType(_, s2, l2, _) = b.types@[r] {
                    assert(c.type_params@.subrange(s2.0 as int, s2.0 + l2) =~= b.type_params@.subrange(s2.0 as int, s2.0 + l2));
                    lemma_params_applied_grow(a, a.type_params@.subrange(s.0 as int, s.0 + l), b, c,
                        b.type_params@.subrange(s2.0 as int, s2.0 + l2), l as int, subs, (fuel - 1) as nat);
                }
            },
            Type::TypeApp(v, s, l, _) => {
                if let Some(x) = crate::types::subst_of(subs, v.0) {
                    lemma_applied_grow(a, x.0 as int, b, c, r, subs, (fuel - 1) as nat);
                } else if let Type::TypeApp(_, s2, l2, _) = b.types@[r] {
                    assert(c.type_params@.subrange(s2.0 as int, s2.0 + l2) =~= b.type_params@.subrange(s2.0 as int, s2.0 + l2));
                    lemma_params_applied_grow(a, a.type_params@.subrange(s.0 as int, s.0 + l), b, c,
                        b.type_params@.subrange(s2.0 as int, s2.0 + l2), l as int, subs, (fuel - 1) as nat);
                }
            },
            Type::Row(s, l, rest, _) => {
                if let Type::Row(s2, l2, rest2, _) = b.types@[r] {
                    assert(c.row_fields@.subrange(s2.0 as int, s2.0 + l2) =~= b.row_fields@.subrange(s2.0 as int, s2.0 + l2));
                    lemma_fields_applied_grow(a, a.row_fields@.subrange(s.0 as int, s.0 + l), b, c,
                        b.row_fields@.subrange(s2.0 as int, s2.0 + l2), l as int, subs, (fuel - 1) as nat);
                    lemma_applied_grow(a, rest.0 as int, b, c, rest2.0 as int, subs, (fuel - 1) as nat);
                }
            },
            _ => {},
        }
    }
}

proof fn lemma_params_applied_grow(a: &Pools, ps: Seq<TypeId>, b: &Pools, c: &Pools, qs: Seq<TypeId>, n: int, subs: Seq<(usize, TypeId)>, fuel: nat)
    requires
        b.grows_to(c),
        params_applied(a, ps, b, qs, n, subs, fuel),
    ensures
        params_applied(a, ps, c, qs, n, subs, fuel),
    decreases fuel, 1int, n,
{
    if n > 0 {
        lemma_params_applied_grow(a, ps, b, c, qs, n - 1, subs, fuel);
        lemma_applied_grow(a, ps[n - 1].0 as int, b, c, qs[n - 1].0 as int, subs, fuel);
    }
}

proof fn lemma_fields_applied_grow(a: &Pools, fs: Seq<RowField>, b: &Pools, c: &Pools, gs: Seq<RowField>, n: int, subs: Seq<(usize, TypeId)>, fuel: nat)
    requires
        b.grows_to(c),
        fields_applied(a, fs, b, gs, n, subs, fuel),
    ensures
        fields_applied(a, fs, c, gs, n, subs, fuel),
    decreases fuel, 1int, n,
{
    if n > 0 {
        lemma_fields_applied_grow(a, fs, b, c, gs, n - 1, subs, fuel);
        lemma_applied_grow(a, fs[n - 1].field_type.0 as int, b, c, gs[n - 1].field_type.0 as int, subs, fuel);
    }
}

/// Whether a type is the substitution applied to another does not change as the
/// source pools grow.
proof fn lemma_applied_source(a: &Pools, a2: &Pools, t: int, b: &Pools, r: int, subs: Seq<(usize, TypeId)>, fuel: nat)
    requires
        a.wf(),
        a.grows_to(a2),
        subst_valid(a, subs),
        0 <= t < a.types@.len(),
    ensures
        applied(a2, t, b, r, subs, fuel) == applied(a, t, b, r, subs, fuel),
    decreases fuel, 0int, 0int,
{
    if fuel > 0 {
        assert(a2.types@[t] == a.types@[t]);
        assert(a.type_node_ok(a.types@[t], t));
        match a.types@[t] {
            Type::Var(v, _) => {
                crate::pools::lemma_assoc_index(subs, v.0);
                if let Some(x) = crate::types::subst_of(subs, v.0) {
                    assert(subs[crate::pools::assoc_index(subs, v.0)].1.0 < a.types@.len());
                    lemma_applied_source(a, a2, x.0 as int, b, r, subs, (fuel - 1) as nat);
                }
            },
            Type::Arrow(x, y, _) => {
                if let Type::Arrow(x2, y2, _) = b.types@[r] {
                    lemma_applied_source(a, a2, x.0 as int, b, x2.0 as int, subs, (fuel - 1) as nat);
                    lemma_applied_source(a, a2, y.0 as int, b, y2.0 as int, subs, (fuel - 1) as nat);
                }
            },
            Type::DataType(_, s, l, _) => {
                assert(a2.type_params@.subrange(s.0 as int, s.0 + l) =~= a.type_params@.subrange(s.0 as int, s.0 + l));
                if let Type::DataType(_, s2, l2, _) = b.types@[r] {
                    lemma_params_applied_source(a, a2, a.type_params@.subrange(s.0 as int, s.0 + l), b,
                        b.type_params@.subrange(s2.0 as int, s2.0 + l2), l as int, subs, (fuel - 1) as nat);
                }
            },
            Type::TypeApp(v, s, l, _) => {
                assert(a2.type_params@.subrange(s.0 as int, s.0 + l) =~= a.type_params@.subrange(s.0 as int, s.0 + l));
                crate::pools::lemma_assoc_index(subs, v.0);
                if let Some(x) = crate::types::subst_of(subs, v.0) {
                    assert(subs[crate::pools::assoc_index(subs, v.0)].1.0 < a.types@.len());
                    lemma_applied_source(a, a2, x.0 as int, b, r, subs, (fuel - 1) as nat);
                } else if let Type::TypeApp(_, s2, l2, _) = b.types@[r] {
                    lemma_params_applied_source(a, a2, a.type_params@.subrange(s.0 as int, s.0 + l), b,
                        b.type_params@.subrange(s2.0 as int, s2.0 + l2), l as int, subs, (fuel - 1) as nat);
                }
            },
            Type::Row(s, l, rest, _) => {
                assert(a2.row_fields@.subrange(s.0 as int, s.0 + l) =~= a.row_fields@.subrange(s.0 as int, s.0 + l));
                if let Type::Row(s2, l2, rest2, _) = b.types@[r] {
                    lemma_fields_applied_source(a, a2, a.row_fields@.subrange(s.0 as int, s.0 + l), b,
                        b.row_fields@.subrange(s2.0 as int, s2.0 + l2), l as int, subs, (fuel - 1) as nat);
                    lemma_applied_source(a, a2, rest.0 as int, b, rest2.0 as int, subs, (fuel - 1) as nat);
                }
            },
            _ => {},
        }
    }
}

proof fn lemma_params_applied_source(a: &Pools, a2: &Pools, ps: Seq<TypeId>, b: &Pools, qs: Seq<TypeId>, n: int, subs: Seq<(usize, TypeId)>, fuel: nat)
    requires
        a.wf(),
        a.grows_to(a2),
        subst_valid(a, subs),
        forall|k: int| 0 <= k < ps.len() ==> (#[trigger] ps[k]).0 < a.types@.len(),
        n <= ps.len(),
    ensures
        params_applied(a2, ps, b, qs, n, subs, fuel) == params_applied(a, ps, b, qs, n, subs, fuel),
    decreases fuel, 1int, n,
{
    if n > 0 {
        lemma_params_applied_source(a, a2, ps, b, qs, n - 1, subs, fuel);
        lemma_applied_source(a, a2, ps[n - 1].0 as int, b, qs[n - 1].0 as int, subs, fuel);
    }
}

proof fn lemma_fields_applied_source(a: &Pools, a2: &Pools, fs: Seq<RowField>, b: &Pools, gs: Seq<RowField>, n: int, subs: Seq<(usize, TypeId)>, fuel: nat)
    requires
        a.wf(),
        a.grows_to(a2),
        subst_valid(a, subs),
        forall|k: int| 0 <= k < fs.len() ==> (#[trigger] fs[k]).field_type.0 < a.types@.len(),
        n <= fs.len(),
    ensures
        fields_applied(a2, fs, b, gs, n, subs, fuel) == fields_applied(a, fs, b, gs, n, subs, fuel),
    decreases fuel, 1int, n,
{
    if n > 0 {
        lemma_fields_applied_source(a, a2, fs, b, gs, n - 1, subs, fuel);
        lemma_applied_source(a, a2, fs[n - 1].field_type.0 as int, b, gs[n - 1].field_type.0 as int, subs, fuel);
    }
}

proof fn lemma_params_applied_prefix(a: &Pools, ps: Seq<TypeId>, b: &Pools, qs: Seq<TypeId>, rs: Seq<TypeId>, n: int, subs: Seq<(usize, TypeId)>, fuel: nat)
    requires
        params_applied(a, ps, b, qs, n, subs, fuel),
        forall|k: int| 0 <= k < n ==> rs[k] == qs[k],
    ensures
        params_applied(a, ps, b, rs, n, subs, fuel),
    decreases n,
{
    if n > 0 {
        lemma_params_applied_prefix(a, ps, b, qs, rs, n - 1, subs, fuel);
    }
}

proof fn lemma_fields_applied_prefix(a: &Pools, fs: Seq<RowField>, b: &Pools, gs: Seq<RowField>, hs: Seq<RowField>, n: int, subs: Seq<(usize, TypeId)>, fuel: nat)
    requires
        fields_applied(a, fs, b, gs, n, subs, fuel),
        forall|k: int| 0 <= k < n ==> hs[k] == gs[k],
    ensures
        fields_applied(a, fs, b, hs, n, subs, fuel),
    decreases n,
{
    if n > 0 {
        lemma_fields_applied_prefix(a, fs, b, gs, hs, n - 1, subs, fuel);
    }
}

/// The walk of the occurs check from type node `t`, with the nodes already reached
/// marked in `visited`: whether it finds `var` (or reaches a node a second time, or
/// runs out of fuel), and the marks afterwards.
pub open spec fn occurs_walk(
    p: &Pools,
    subs: Seq<(usize, TypeId)>,
    var: usize,
    t: int,
    visited: Seq<bool>,
    fuel: nat,
) -> (bool, Seq<bool>)
    decreases fuel, 0int, 0int,
{
    if fuel == 0 {
        (true, visited)
    } else if visited[t] {
        (true, visited)
    } else {
        let v1 = visited.update(t, true);
        match p.types@[t] {
            Type::Var(v, _) => if v.0 == var {
                (true, v1)
            } else {
                match crate::types::subst_of(subs, v.0) {
                    Some(x) => occurs_walk(p, subs, var, x.0 as int, v1, (fuel - 1) as nat),
                    None => (false, v1),
                }
            },
            Type::Arrow(a, b, _) => {
                let (found, w) = occurs_walk(p, subs, var, a.0 as int, v1, (fuel - 1) as nat);
                if found { (true, w) } else { occurs_walk(p, subs, var, b.0 as int, w, (fuel - 1) as nat) }
            },
            Type::DataType(_, s, l, _) => occurs_params_walk(
                p, subs, var, p.type_params@.subrange(s.0 as int, s.0 + l), 0, v1, (fuel - 1) as nat),
            Type::TypeApp(v, s, l, _) => if v.0 == var {
                (true, v1)
            } else {
                occurs_params_walk(p, subs, var, p.type_params@.subrange(s.0 as int, s.0 + l), 0, v1, (fuel - 1) as nat)
            },
            Type::Row(s, l, rest, _) => {
                let (found, w) = occurs_fields_walk(
                    p, subs, var, p.row_fields@.subrange(s.0 as int, s.0 + l), 0, v1, (fuel - 1) as nat);
                if found { (true, w) } else { occurs_walk(p, subs, var, rest.0 as int, w, (fuel - 1) as nat) }
            },
            _ => (false, v1),
        }
    }
}

/// The occurs-check walk over the types `ps[i..]`, stopping at the first that finds.
pub open spec fn occurs_params_walk(
    p: &Pools,
    subs: Seq<(usize, TypeId)>,
    var: usize,
    ps: Seq<TypeId>,
    i: int,
    visited: Seq<bool>,
    fuel: nat,
) -> (bool, Seq<bool>)
    decreases fuel, 1int, ps.len() - i,
{
    if i < 0 || i >= ps.len() {
        (false, visited)
    } else {
        let (found, w) = occurs_walk(p, subs, var, ps[i].0 as int, visited, fuel);
        if found { (true, w) } else { occurs_params_walk(p, subs, var, ps, i + 1, w, fuel) }
    }
}

/// The occurs-check walk over the field types of `fs[i..]`, stopping at the first that finds.
pub open spec fn occurs_fields_walk(
    p: &Pools,
    subs: Seq<(usize, TypeId)>,
    var: usize,
    fs: Seq<RowField>,
    i: int,
    visited: Seq<bool>,
    fuel: nat,
) -> (bool, Seq<bool>)
    decreases fuel, 1int, fs.len() - i,
{
    if i < 0 || i >= fs.len() {
        (false, visited)
    } else {
        let (found, w) = occurs_walk(p, subs, var, fs[i].field_type.0 as int, visited, fuel);
        if found { (true, w) } else { occurs_fields_walk(p, subs, var, fs, i + 1, w, fuel) }
    }
}

/// A sequence of `n` unset marks.
pub open spec fn no_marks(n: nat) -> Seq<bool> {
    Seq::new(n, |k: int| false)
}

/// Some field of `fs` is called `n`.
pub open spec fn has_label(fs: Seq<RowField>, n: InternedString) -> bool {
    exists|k: int| 0 <= k < fs.len() && #[trigger] fs[k].name == n
}

/// The first `n` fields of `xs` whose names `ys` lacks, in order.
pub open spec fn absent_labels(xs: Seq<RowField>, ys: Seq<RowField>, n: int) -> Seq<RowField>
    decreases n,
{
    if n <= 0 {
        Seq::empty()
    } else if has_label(ys, xs[n - 1].name) {
        absent_labels(xs, ys, n - 1)
    } else {
        absent_labels(xs, ys, n - 1).push(xs[n - 1])
    }
}

/// The pairs of parameters aligned from the last of each list: pair `k` is
/// `p1[len1 - 1 - k]` with `p2[len2 - 1 - k]`.
pub open spec fn aligned_pair_count(p1: Seq<TypeId>, p2: Seq<TypeId>) -> int {
    if p1.len() < p2.len() { p1.len() as int } else { p2.len() as int }
}

/// No aligned pair is made of two different base types.
pub open spec fn no_base_clash(p: &Pools, p1: Seq<TypeId>, p2: Seq<TypeId>, c: int) -> bool {
    forall|k: int| 0 <= k < c ==> !(is_base(p.types@[p1[p1.len() - 1 - k].0 as int]) && is_base(
        p.types@[#[trigger] p2[p2.len() - 1 - k].0 as int],
    ) && !same_base(p.types@[p1[p1.len() - 1 - k].0 as int], p.types@[p2[p2.len() - 1 - k].0 as int]))
}

/// Every aligned pair is made of the same base type twice.
pub open spec fn all_same_base(p: &Pools, p1: Seq<TypeId>, p2: Seq<TypeId>, c: int) -> bool {
    forall|k: int| 0 <= k < c ==> same_base(p.types@[p1[p1.len() - 1 - k].0 as int], p.types@[#[trigger] p2[p2.len() - 1 - k].0 as int])
}

/// Each of `vars` is bound in `after` to a variable node that `b` added to `a`; the
/// bindings of other variables are those of `before`.
pub open spec fn fresh_bound(a: &Pools, b: &Pools, vars: Seq<TypeVarId>, before: Seq<(usize, TypeId)>, after: Seq<(usize, TypeId)>) -> bool {
    &&& forall|v: usize| #[trigger] crate::pools::assoc_get(after, v) == if exists|k: int| 0 <= k < vars.len() && vars[k].0 == v {
        crate::pools::assoc_get(after, v)
    } else {
        crate::pools::assoc_get(before, v)
    }
    &&& forall|v: usize| (exists|k: int| 0 <= k < vars.len() && vars[k].0 == v) ==> (#[trigger] crate::pools::assoc_get(after, v) is Some
        && a.types@.len() <= crate::pools::assoc_get(after, v).unwrap().0 < b.types@.len()
        && b.types@[crate::pools::assoc_get(after, v).unwrap().0 as int] is Var)
}

/// `b` has the outermost constructor of `a`, unless `a` is a variable or an
/// application of a variable (which a substitution may replace).
pub open spec fn same_head(a: Type, b: Type) -> bool {
    match a {
        Type::Int(_) => b is Int,
        Type::String(_) => b is String,
        Type::Unit(_) => b is Unit,
        Type::EmptyRow(_) => b is EmptyRow,
        Type::Arrow(..) => b is Arrow,
        Type::DataType(n, _, l, _) => b matches Type::DataType(m, _, k, _) && m == n && k == l,
        Type::Row(_, l, _, _) => b matches Type::Row(_, k, _, _) && k == l,
        _ => true,
    }
}

/// A variable that `subst` leaves unbound stays that variable.
pub open spec fn unbound_var_kept(subst: Seq<(usize, TypeId)>, a: Type, b: Type) -> bool {
    match a {
        Type::Var(v, _) => crate::pools::assoc_get(subst, v.0) is None ==> (b matches Type::Var(w, _) && w.0 == v.0),
        _ => true,
    }
}

impl PooledTypingContext {
    /// Every type the context holds is a node of `pools`.
    pub open spec fn wf_in(&self, pools: &Pools) -> bool {
        &&& schemes_valid(pools, self.type_schemes@)
        &&& subst_valid(pools, self.substitutions@)
        &&& forall|k: int| 0 <= k < self.expr_types@.len() ==> (#[trigger] self.expr_types@[k]).1.0 < pools.types@.len()
    }

    pub proof fn lemma_wf_grow(&self, a: &Pools, b: &Pools)
        requires
            self.wf_in(a),
            a.grows_to(b),
        ensures
            self.wf_in(b),
    {
    }

    pub fn new() -> (r: Self)
        ensures
            r.type_schemes@.len() == 0,
            r.substitutions@.len() == 0,
            r.expr_types@.len() == 0,
    {
        Self { type_schemes: Vec::new(), substitutions: Vec::new(), expr_types: Vec::new() }
    }

    pub fn clear(&mut self)
        ensures
            final(self).type_schemes@.len() == 0,
            final(self).substitutions@.len() == 0,
            final(self).expr_types@.len() == 0,
    {
        self.type_schemes.clear();
        self.substitutions.clear();
        self.expr_types.clear();
    }

    pub fn clear_substitutions(&mut self)
        ensures
            final(self).substitutions@.len() == 0,
            final(self).type_schemes == old(self).type_schemes,
            final(self).expr_types == old(self).expr_types,
    {
        self.substitutions.clear();
    }

    /// A copy of this context.
    pub fn copy(&self) -> (r: Self)
        ensures
            r.type_schemes@.len() == self.type_schemes@.len(),
            forall|k: int| 0 <= k < r.type_schemes@.len() ==> crate::pools::same_scheme(#[trigger] r.type_schemes@[k], self.type_schemes@[k]),
            r.substitutions@ == self.substitutions@,
            r.expr_types@ == self.expr_types@,
    {
        let mut schemes: Vec<TypeScheme> = Vec::new();
        let mut i: usize = 0;
        while i < self.type_schemes.len()
            invariant
                i <= self.type_schemes@.len(),
                schemes@.len() == i,
                forall|k: int| 0 <= k < i ==> crate::pools::same_scheme(#[trigger] schemes@[k], self.type_schemes@[k]),
            decreases self.type_schemes@.len() - i,
        {
            schemes.push(self.type_schemes[i].copy());
            i = i + 1;
        }
        let mut subst: Vec<(usize, TypeId)> = Vec::new();
        let mut j: usize = 0;
        while j < self.substitutions.len()
            invariant
                j <= self.substitutions@.len(),
                subst@ == self.substitutions@.subrange(0, j as int),
            decreases self.substitutions@.len() - j,
        {
            subst.push(self.substitutions[j]);
            j = j + 1;
            assert(subst@ =~= self.substitutions@.subrange(0, j as int));
        }
        assert(self.substitutions@.subrange(0, self.substitutions@.len() as int) =~= self.substitutions@);
        let mut log: Vec<(ExprId, TypeId)> = Vec::new();
        let mut k: usize = 0;
        while k < self.expr_types.len()
            invariant
                k <= self.expr_types@.len(),
                log@ == self.expr_types@.subrange(0, k as int),
            decreases self.expr_types@.len() - k,
        {
            log.push(self.expr_types[k]);
            k = k + 1;
            assert(log@ =~= self.expr_types@.subrange(0, k as int));
        }
        assert(self.expr_types@.subrange(0, self.expr_types@.len() as int) =~= self.expr_types@);
        Self { type_schemes: schemes, substitutions: subst, expr_types: log }
    }

    pub fn fresh_type_var(&mut self, pools: &mut Pools) -> (r: TypeId)
        requires
            old(pools).wf(),
            old(pools).next_type_var < usize::MAX,
        ensures
            final(pools).wf(),
            old(pools).only_types_grow(final(pools)),
            final(pools).valid_type(r),
            final(pools).types@[r.0 as int] == Type::Var(TypeVarId(old(pools).next_type_var, None), SpanId(0)),
            *final(self) == *old(self),
    {
        pools.fresh_type_var()
    }

    pub fn fresh_type_var_span(&mut self, pools: &mut Pools, span: SpanId) -> (r: TypeId)
        requires
            old(pools).wf(),
            old(pools).next_type_var < usize::MAX,
        ensures
            final(pools).wf(),
            old(pools).only_types_grow(final(pools)),
            final(pools).valid_type(r),
            final(pools).types@[r.0 as int] == Type::Var(TypeVarId(old(pools).next_type_var, None), span),
            *final(self) == *old(self),
    {
        pools.fresh_type_var_span(span)
    }

    /// A fresh variable, or an error when the supply of variable numbers is exhausted.
    fn fresh(pools: &mut Pools, span: SpanId) -> (r: Result<TypeId, TypeError>)
        requires
            old(pools).wf(),
        ensures
            final(pools).wf(),
            old(pools).only_types_grow(final(pools)),
            r matches Ok(t) ==> final(pools).valid_type(t) && final(pools).types@[t.0 as int] is Var,
            r is Err ==> r->Err_0.types_valid(final(pools)),
            (r is Ok) == (old(pools).next_type_var < usize::MAX - 1),
            r matches Ok(t) ==> t.0 == old(pools).types@.len() && final(pools).types@ == old(pools).types@.push(
                Type::Var(TypeVarId(old(pools).next_type_var, None), span),
            ) && final(pools).next_type_var == old(pools).next_type_var + 1,
    {
        if pools.next_type_var >= usize::MAX - 1 {
            let msg = chars_to_string(&str_to_chars("Ran out of type variables"));
            return Err(RichTypeError::type_error(msg, span));
        }
        Ok(pools.fresh_type_var_span(span))
    }

    pub fn extend_scheme(&mut self, scheme: TypeScheme)
        ensures
            final(self).type_schemes@ == old(self).type_schemes@.push(scheme),
            final(self).substitutions == old(self).substitutions,
            final(self).expr_types == old(self).expr_types,
    {
        self.type_schemes.push(scheme);
    }

    /// The scheme of the variable with De Bruijn index `index` (0 is the innermost).
    pub fn lookup_scheme(&self, index: DeBruijnIndex) -> (r: Option<TypeScheme>)
        ensures
            index.0 < self.type_schemes@.len() ==> r is Some && crate::pools::same_scheme(
                r.unwrap(),
                self.type_schemes@[self.type_schemes@.len() - 1 - index.0],
            ),
            index.0 >= self.type_schemes@.len() ==> r is None,
    {
        let idx = index.index();
        if idx < self.type_schemes.len() {
            Some(self.type_schemes[self.type_schemes.len() - 1 - idx].copy())
        } else {
            None
        }
    }

    /// Logs the type given to an expression.
    pub fn record(&mut self, expr_id: ExprId, type_id: TypeId)
        ensures
            final(self).expr_types@ == old(self).expr_types@.push((expr_id, type_id)),
            final(self).type_schemes == old(self).type_schemes,
            final(self).substitutions == old(self).substitutions,
    {
        self.expr_types.push((expr_id, type_id));
    }

    /// The logged types of an expression, oldest first.
    pub fn recorded_types(&self, expr_id: ExprId) -> (r: Vec<TypeId>)
        ensures
            r@ == types_recorded(self.expr_types@, expr_id),
    {
        let mut r: Vec<TypeId> = Vec::new();
        let mut i: usize = 0;
        while i < self.expr_types.len()
            invariant
                i <= self.expr_types@.len(),
                r@ == types_recorded(self.expr_types@.subrange(0, i as int), expr_id),
            decreases self.expr_types@.len() - i,
        {
            assert(self.expr_types@.subrange(0, i + 1).drop_last() =~= self.expr_types@.subrange(0, i as int));
            if self.expr_types[i].0 == expr_id {
                r.push(self.expr_types[i].1);
            }
            i = i + 1;
        }
        assert(self.expr_types@.subrange(0, self.expr_types@.len() as int) =~= self.expr_types@);
        r
    }

    /// The depth budget of applying the substitution.
    pub open spec fn spec_apply_fuel(&self, pools: &Pools) -> int {
        if pools.types@.len() < 0x8000 && self.substitutions@.len() < 0x8000 {
            ((pools.types@.len() + 1) * (self.substitutions@.len() + 1)) as int
        } else {
            usize::MAX as int
        }
    }

    /// A depth budget that covers any chain of substitutions that comes to an end.
    fn apply_fuel(&self, pools: &Pools) -> (r: usize)
        ensures
            r > 0,
            r == self.spec_apply_fuel(pools),
    {
        let a = pools.types.len();
        let b = self.substitutions.len();
        if a < 0x8000 && b < 0x8000 {
            assert((a + 1) * (b + 1) <= 0x8000 * 0x8000 && (a + 1) * (b + 1) > 0) by (nonlinear_arith)
                requires
                    a < 0x8000,
                    b < 0x8000,
            ;
            (a + 1) * (b + 1)
        } else {
            usize::MAX
        }
    }

    /// `ty` with the substitution applied throughout, as a newly built type.
    pub fn apply_substitutions(&self, pools: &mut Pools, ty: TypeId) -> (r: TypeId)
        requires
            old(pools).wf(),
            self.wf_in(old(pools)),
            old(pools).valid_type(ty),
        ensures
            final(pools).wf(),
            old(pools).only_types_grow(final(pools)),
            final(pools).valid_type(r),
            final(pools).next_type_var == old(pools).next_type_var,
            same_head(old(pools).types@[ty.0 as int], final(pools).types@[r.0 as int]),
            unbound_var_kept(self.substitutions@, old(pools).types@[ty.0 as int], final(pools).types@[r.0 as int]),
            applied(old(pools), ty.0 as int, final(pools), r.0 as int, self.substitutions@, self.spec_apply_fuel(old(pools)) as nat),
    {
        let fuel = self.apply_fuel(pools);
        self.apply_with_fuel(pools, ty, fuel)
    }

    fn apply_with_fuel(&self, pools: &mut Pools, ty: TypeId, fuel: usize) -> (r: TypeId)
        requires
            old(pools).wf(),
            self.wf_in(old(pools)),
            old(pools).valid_type(ty),
        ensures
            final(pools).wf(),
            old(pools).only_types_grow(final(pools)),
            final(pools).valid_type(r),
            final(pools).next_type_var == old(pools).next_type_var,
            fuel > 0 ==> same_head(old(pools).types@[ty.0 as int], final(pools).types@[r.0 as int]),
            fuel > 0 ==> unbound_var_kept(self.substitutions@, old(pools).types@[ty.0 as int], final(pools).types@[r.0 as int]),
            applied(old(pools), ty.0 as int, final(pools), r.0 as int, self.substitutions@, fuel as nat),
        decreases fuel, 0nat,
    {
        if fuel == 0 {
            return ty;
        }
        let ghost p0 = *pools;
        let ghost t = ty.0 as int;
        let ghost subs = self.substitutions@;
        let ty_val = pools.types[ty.0];
        proof {
            assert(pools.type_node_ok(pools.types@[ty.0 as int], ty.0 as int));
        }
        match ty_val {
            Type::Int(_) => pools.type_int(),
            Type::String(_) => pools.type_string(),
            Type::Unit(_) => pools.type_unit(),
            Type::EmptyRow(_) => pools.type_empty_row(),
            Type::Var(var, _) => {
                match subst_lookup(&self.substitutions, var.0) {
                    Some(s) => self.apply_with_fuel(pools, s, fuel - 1),
                    None => pools.type_var(var.0),
                }
            },
            Type::Arrow(from, to, _) => {
                let new_from = self.apply_with_fuel(pools, from, fuel - 1);
                let ghost p1 = *pools;
                let new_to = self.apply_with_fuel(pools, to, fuel - 1);
                let ghost p2 = *pools;
                let r = pools.type_arrow(new_from, new_to);
                proof {
                    Pools::lemma_grows_trans(&p1, &p2, &*pools);
                    lemma_applied_grow(&p0, from.0 as int, &p1, &*pools, new_from.0 as int, subs, (fuel - 1) as nat);
                    lemma_applied_source(&p0, &p1, to.0 as int, &p2, new_to.0 as int, subs, (fuel - 1) as nat);
                    lemma_applied_grow(&p0, to.0 as int, &p2, &*pools, new_to.0 as int, subs, (fuel - 1) as nat);
                }
                r
            },
            Type::DataType(name, start, len, _) => {
                let new_params = self.apply_params(pools, start.0, len, ty.0, fuel - 1);
                let ghost p1 = *pools;
                let tp_len = pools.type_params.len();
                let r = pools.data_type(name, new_params.as_slice());
                proof {
                    assert(tp_len as int == p1.type_params@.len());
                    let s2 = p1.type_params@.len() as int;
                    assert(pools.type_params@.subrange(s2, s2 + len) =~= new_params@);
                    lemma_params_applied_grow(&p0, p0.type_params@.subrange(start.0 as int, start.0 + len), &p1, &*pools,
                        new_params@, len as int, subs, (fuel - 1) as nat);
                }
                r
            },
            Type::TypeApp(var_id, start, len, _) => {
                match subst_lookup(&self.substitutions, var_id.0) {
                    Some(s) => self.apply_with_fuel(pools, s, fuel - 1),
                    None => {
                        let new_params = self.apply_params(pools, start.0, len, ty.0, fuel - 1);
                        let ghost p1 = *pools;
                        let tp_len = pools.type_params.len();
                        let r = pools.type_app(var_id.0, new_params.as_slice());
                        proof {
                            assert(tp_len as int == p1.type_params@.len());
                            let s2 = p1.type_params@.len() as int;
                            assert(pools.type_params@.subrange(s2, s2 + len) =~= new_params@);
                            lemma_params_applied_grow(&p0, p0.type_params@.subrange(start.0 as int, start.0 + len), &p1, &*pools,
                                new_params@, len as int, subs, (fuel - 1) as nat);
                        }
                        r
                    },
                }
            },
            Type::Row(start, len, rest, _) => {
                let fields = pools.get_row_fields(start.0, len);
                let mut new_fields: Vec<RowField> = Vec::new();
                let mut i: usize = 0;
                while i < fields.len()
                    invariant
                        pools.wf(),
                        old(pools).only_types_grow(pools),
                        pools.next_type_var == old(pools).next_type_var,
                        self.wf_in(old(pools)),
                        i <= fields@.len(),
                        fields@ == old(pools).row_fields@.subrange(start.0 as int, start.0 + len),
                        old(pools).row_below(start.0 as int, len as int, ty.0 as int),
                        ty.0 < old(pools).types@.len(),
                        pools.fields_valid(new_fields@),
                        new_fields@.len() == i,
                        fuel > 0,
                        p0 == *old(pools),
                        p0.wf(),
                        subs == self.substitutions@,
                        subst_valid(&p0, subs),
                        fields_applied(&p0, fields@, pools, new_fields@, i as int, subs, (fuel - 1) as nat),
                    decreases fields@.len() - i,
                {
                    assert(fields@[i as int] == old(pools).row_fields@[start.0 + i]);
                    proof {
                        self.lemma_wf_grow(&*old(pools), &*pools);
                    }
                    let ghost before = *pools;
                    let ghost nf0 = new_fields@;
                    let ft = self.apply_with_fuel(pools, fields[i].field_type, fuel - 1);
                    new_fields.push(RowField { name: fields[i].name, field_type: ft });
                    proof {
                        lemma_fields_applied_grow(&p0, fields@, &before, &*pools, nf0, i as int, subs, (fuel - 1) as nat);
                        lemma_applied_source(&p0, &before, fields@[i as int].field_type.0 as int, &*pools, ft.0 as int, subs, (fuel - 1) as nat);
                        assert forall|k: int| 0 <= k < i implies new_fields@[k] == nf0[k] by {}
                        lemma_fields_applied_prefix(&p0, fields@, &*pools, nf0, new_fields@, i as int, subs, (fuel - 1) as nat);
                    }
                    i = i + 1;
                }
                proof {
                    self.lemma_wf_grow(&*old(pools), &*pools);
                }
                let ghost p1 = *pools;
                let new_rest = self.apply_with_fuel(pools, rest, fuel - 1);
                let ghost p2 = *pools;
                let row_len = pools.row_fields.len();
                let r = pools.type_row(new_fields.as_slice(), new_rest);
                proof {
                    assert(row_len as int == p2.row_fields@.len());
                    Pools::lemma_grows_trans(&p1, &p2, &*pools);
                    lemma_fields_applied_grow(&p0, fields@, &p1, &*pools, new_fields@, len as int, subs, (fuel - 1) as nat);
                    let s2 = p2.row_fields@.len() as int;
                    assert(pools.row_fields@.subrange(s2, s2 + len) =~= new_fields@);
                    lemma_applied_source(&p0, &p1, rest.0 as int, &p2, new_rest.0 as int, subs, (fuel - 1) as nat);
                    lemma_applied_grow(&p0, rest.0 as int, &p2, &*pools, new_rest.0 as int, subs, (fuel - 1) as nat);
                }
                r
            },
        }
    }

    fn apply_params(&self, pools: &mut Pools, start: usize, len: usize, bound: usize, fuel: usize) -> (r: Vec<TypeId>)
        requires
            old(pools).wf(),
            self.wf_in(old(pools)),
            old(pools).params_below(start as int, len as int, bound as int),
            bound < old(pools).types@.len(),
        ensures
            final(pools).wf(),
            old(pools).only_types_grow(final(pools)),
            final(pools).all_valid_types(r@),
            r@.len() == len,
            final(pools).next_type_var == old(pools).next_type_var,
            params_applied(old(pools), old(pools).type_params@.subrange(start as int, start + len), final(pools), r@, len as int, self.substitutions@, fuel as nat),
        decreases fuel, 1nat,
    {
        let ghost p0 = *pools;
        let ghost subs = self.substitutions@;
        let params = pools.get_data_type_params(start, len);
        let mut new_params: Vec<TypeId> = Vec::new();
        let mut i: usize = 0;
        while i < params.len()
            invariant
                pools.wf(),
                old(pools).only_types_grow(pools),
                pools.next_type_var == old(pools).next_type_var,
                self.wf_in(old(pools)),
                i <= params@.len(),
                params@ == old(pools).type_params@.subrange(start as int, start + len),
                old(pools).params_below(start as int, len as int, bound as int),
                bound < old(pools).types@.len(),
                pools.all_valid_types(new_params@),
                new_params@.len() == i,
                p0 == *old(pools),
                p0.wf(),
                subs == self.substitutions@,
                subst_valid(&p0, subs),
                params_applied(&p0, params@, pools, new_params@, i as int, subs, fuel as nat),
            decreases params@.len() - i,
        {
            assert(params@[i as int] == old(pools).type_params@[start + i]);
            assert(old(pools).type_params@[start + i].0 < bound);
            proof {
                self.lemma_wf_grow(&*old(pools), &*pools);
            }
            let ghost before = *pools;
            let ghost np0 = new_params@;
            let p = self.apply_with_fuel(pools, params[i], fuel);
            new_params.push(p);
            proof {
                lemma_params_applied_grow(&p0, params@, &before, &*pools, np0, i as int, subs, fuel as nat);
                lemma_applied_source(&p0, &before, params@[i as int].0 as int, &*pools, p.0 as int, subs, fuel as nat);
                lemma_params_applied_prefix(&p0, params@, &*pools, np0, new_params@, i as int, subs, fuel as nat);
            }
            i = i + 1;
        }
        new_params
    }

    /// Applies the substitution to the parameter run `start..start+len`.
    fn apply_substitutions_to_params(&self, pools: &mut Pools, start: usize, len: usize) -> (r: Vec<TypeId>)
        requires
            old(pools).wf(),
            self.wf_in(old(pools)),
            start + len <= old(pools).type_params@.len(),
            forall|k: int| start <= k < start + len ==> (#[trigger] old(pools).type_params@[k]).0 < old(pools).types@.len(),
        ensures
            final(pools).wf(),
            old(pools).only_types_grow(final(pools)),
            final(pools).all_valid_types(r@),
            r@.len() == len,
            final(pools).next_type_var == old(pools).next_type_var,
    {
        let params = pools.get_data_type_params(start, len);
        let mut new_params: Vec<TypeId> = Vec::new();
        let mut i: usize = 0;
        while i < params.len()
            invariant
                pools.wf(),
                old(pools).only_types_grow(pools),
                pools.next_type_var == old(pools).next_type_var,
                self.wf_in(old(pools)),
                i <= params@.len(),
                params@ == old(pools).type_params@.subrange(start as int, start + len),
                start + len <= old(pools).type_params@.len(),
                forall|k: int| start <= k < start + len ==> (#[trigger] old(pools).type_params@[k]).0 < old(pools).types@.len(),
                pools.all_valid_types(new_params@),
                new_params@.len() == i,
            decreases params@.len() - i,
        {
            assert(params@[i as int] == old(pools).type_params@[start + i]);
            proof {
                self.lemma_wf_grow(&*old(pools), &*pools);
            }
            let p = self.apply_substitutions(pools, params[i]);
            new_params.push(p);
            i = i + 1;
        }
        new_params
    }

    /// Whether `var` occurs in `ty` under the substitution; a type reached twice
    /// also counts as an occurrence.
    fn occurs_check(&self, var: TypeVarId, pools: &Pools, ty: TypeId) -> (r: bool)
        requires
            pools.wf(),
            self.wf_in(pools),
            pools.valid_type(ty),
        ensures
            is_base(pools.types@[ty.0 as int]) ==> !r,
            r == occurs_walk(pools, self.substitutions@, var.0, ty.0 as int, no_marks(pools.types@.len()), pools.types@.len()).0,
    {
        let mut visited: Vec<bool> = Vec::new();
        let n = pools.types.len();
        let mut i: usize = 0;
        while i < n
            invariant
                i <= n,
                visited@.len() == i,
                forall|k: int| 0 <= k < i ==> !visited@[k],
            decreases n - i,
        {
            visited.push(false);
            i = i + 1;
        }
        assert(visited@ =~= no_marks(pools.types@.len()));
        self.occurs_check_helper(var, pools, ty, &mut visited, n)
    }

    fn occurs_check_helper(
        &self,
        var: TypeVarId,
        pools: &Pools,
        ty: TypeId,
        visited: &mut Vec<bool>,
        fuel: usize,
    ) -> (r: bool)
        requires
            pools.wf(),
            self.wf_in(pools),
            pools.valid_type(ty),
            old(visited)@.len() == pools.types@.len(),
        ensures
            final(visited)@.len() == pools.types@.len(),
            fuel > 0 && !old(visited)@[ty.0 as int] && is_base(pools.types@[ty.0 as int]) ==> !r,
            (r, final(visited)@) == occurs_walk(pools, self.substitutions@, var.0, ty.0 as int, old(visited)@, fuel as nat),
        decreases fuel, 0nat,
    {
        if fuel == 0 {
            return true;
        }
        if visited[ty.0] {
            return true;
        }
        visited.set(ty.0, true);
        let t = pools.types[ty.0];
        proof {
            assert(pools.type_node_ok(pools.types@[ty.0 as int], ty.0 as int));
        }
        match t {
            Type::Int(_) | Type::String(_) | Type::Unit(_) | Type::EmptyRow(_) => false,
            Type::Var(v, _) => {
                if v.0 == var.0 {
                    true
                } else {
                    match subst_lookup(&self.substitutions, v.0) {
                        Some(s) => {
                            proof {
                                crate::pools::lemma_assoc_index(self.substitutions@, v.0);
                                assert(self.substitutions@[crate::pools::assoc_index(self.substitutions@, v.0)].1.0 < pools.types@.len());
                            }
                            self.occurs_check_helper(var, pools, s, visited, fuel - 1)
                        },
                        None => false,
                    }
                }
            },
            Type::Arrow(from, to, _) => {
                if self.occurs_check_helper(var, pools, from, visited, fuel - 1) {
                    true
                } else {
                    self.occurs_check_helper(var, pools, to, visited, fuel - 1)
                }
            },
            Type::DataType(_, start, len, _) => {
                self.occurs_in_params(var, pools, start.0, len, ty.0, visited, fuel - 1)
            },
            Type::TypeApp(var_id, start, len, _) => {
                if var_id.0 == var.0 {
                    true
                } else {
                    self.occurs_in_params(var, pools, start.0, len, ty.0, visited, fuel - 1)
                }
            },
            Type::Row(start, len, rest, _) => {
                let fields = pools.get_row_fields(start.0, len);
                let ghost target = occurs_fields_walk(pools, self.substitutions@, var.0, fields@, 0, visited@, (fuel - 1) as nat);
                let mut i: usize = 0;
                while i < fields.len()
                    invariant
                        pools.wf(),
                        self.wf_in(pools),
                        i <= fields@.len(),
                        fields@ == pools.row_fields@.subrange(start.0 as int, start.0 + len),
                        pools.row_below(start.0 as int, len as int, ty.0 as int),
                        ty.0 < pools.types@.len(),
                        visited@.len() == pools.types@.len(),
                        fuel > 0,
                        !is_base(pools.types@[ty.0 as int]),
                        occurs_fields_walk(pools, self.substitutions@, var.0, fields@, i as int, visited@, (fuel - 1) as nat) == target,
                        occurs_walk(pools, self.substitutions@, var.0, ty.0 as int, old(visited)@, fuel as nat) == (if target.0 {
                            (true, target.1)
                        } else {
                            occurs_walk(pools, self.substitutions@, var.0, rest.0 as int, target.1, (fuel - 1) as nat)
                        }),
                    decreases fields@.len() - i,
                {
                    assert(fields@[i as int] == pools.row_fields@[start.0 + i]);
                    if self.occurs_check_helper(var, pools, fields[i].field_type, visited, fuel - 1) {
                        return true;
                    }
                    i = i + 1;
                }
                self.occurs_check_helper(var, pools, rest, visited, fuel - 1)
            },
        }
    }

    fn occurs_in_params(
        &self,
        var: TypeVarId,
        pools: &Pools,
        start: usize,
        len: usize,
        bound: usize,
        visited: &mut Vec<bool>,
        fuel: usize,
    ) -> (r: bool)
        requires
            pools.wf(),
            self.wf_in(pools),
            pools.params_below(start as int, len as int, bound as int),
            bound < pools.types@.len(),
            old(visited)@.len() == pools.types@.len(),
        ensures
            final(visited)@.len() == pools.types@.len(),
            (r, final(visited)@) == occurs_params_walk(pools, self.substitutions@, var.0, pools.type_params@.subrange(start as int, start + len), 0, old(visited)@, fuel as nat),
        decreases fuel, 1nat,
    {
        let params = pools.get_data_type_params(start, len);
        let mut i: usize = 0;
        while i < params.len()
            invariant
                pools.wf(),
                self.wf_in(pools),
                i <= params@.len(),
                params@ == pools.type_params@.subrange(start as int, start + len),
                pools.params_below(start as int, len as int, bound as int),
                bound < pools.types@.len(),
                visited@.len() == pools.types@.len(),
                occurs_params_walk(pools, self.substitutions@, var.0, params@, i as int, visited@, fuel as nat)
                    == occurs_params_walk(pools, self.substitutions@, var.0, params@, 0, old(visited)@, fuel as nat),
            decreases params@.len() - i,
        {
            assert(params@[i as int] == pools.type_params@[start + i]);
            if self.occurs_check_helper(var, pools, params[i], visited, fuel) {
                return true;
            }
            i = i + 1;
        }
        false
    }

    /// Adds the bindings of `other` for variables that have none here.
    fn merge_substitutions(&mut self, other: &Vec<(usize, TypeId)>, pools: &Pools)
        requires
            old(self).wf_in(pools),
            subst_valid(pools, other@),
        ensures
            final(self).wf_in(pools),
            final(self).type_schemes == old(self).type_schemes,
            final(self).expr_types == old(self).expr_types,
            forall|v: usize| #[trigger] crate::pools::assoc_get(final(self).substitutions@, v) == if crate::pools::assoc_get(
                old(self).substitutions@,
                v,
            ) is Some {
                crate::pools::assoc_get(old(self).substitutions@, v)
            } else {
                crate::pools::assoc_get(other@, v)
            },
    {
        let mut i: usize = 0;
        while i < other.len()
            invariant
                i <= other@.len(),
                self.wf_in(pools),
                subst_valid(pools, other@),
                self.type_schemes == old(self).type_schemes,
                self.expr_types == old(self).expr_types,
                forall|v: usize| #[trigger] crate::pools::assoc_get(self.substitutions@, v) == if crate::pools::assoc_get(
                    old(self).substitutions@,
                    v,
                ) is Some {
                    crate::pools::assoc_get(old(self).substitutions@, v)
                } else {
                    crate::pools::assoc_get(other@.subrange(0, i as int), v)
                },
            decreases other@.len() - i,
        {
            let (var, ty) = other[i];
            let ghost s0 = self.substitutions@;
            proof {
                assert(other@.subrange(0, i + 1) =~= other@.subrange(0, i as int).push(other@[i as int]));
                assert forall|v: usize| #![trigger crate::pools::assoc_get(other@.subrange(0, i + 1), v)] true implies
                    crate::pools::assoc_get(other@.subrange(0, i + 1), v) == if crate::pools::assoc_get(other@.subrange(0, i as int), v) is Some {
                        crate::pools::assoc_get(other@.subrange(0, i as int), v)
                    } else if v == var {
                        Some(ty)
                    } else {
                        None
                    } by {
                    lemma_assoc_get_push(other@.subrange(0, i as int), (var, ty), v);
                }
            }
            if subst_lookup(&self.substitutions, var).is_none() {
                subst_insert(&mut self.substitutions, var, ty);
                proof {
                    lemma_subst_put_valid(pools, s0, var, ty);
                    assert forall|v: usize| #![trigger crate::pools::assoc_get(self.substitutions@, v)] true implies
                        crate::pools::assoc_get(self.substitutions@, v) == if crate::pools::assoc_get(old(self).substitutions@, v) is Some {
                            crate::pools::assoc_get(old(self).substitutions@, v)
                        } else {
                            crate::pools::assoc_get(other@.subrange(0, i + 1), v)
                        } by {
                        crate::pools::lemma_assoc_put_get(s0, var, ty, v);
                        assert(crate::pools::assoc_get(s0, v) == if crate::pools::assoc_get(old(self).substitutions@, v) is Some {
                            crate::pools::assoc_get(old(self).substitutions@, v)
                        } else {
                            crate::pools::assoc_get(other@.subrange(0, i as int), v)
                        });
                    }
                }
            } else {
                proof {
                    assert forall|v: usize| #![trigger crate::pools::assoc_get(self.substitutions@, v)] true implies
                        crate::pools::assoc_get(self.substitutions@, v) == if crate::pools::assoc_get(old(self).substitutions@, v) is Some {
                            crate::pools::assoc_get(old(self).substitutions@, v)
                        } else {
                            crate::pools::assoc_get(other@.subrange(0, i + 1), v)
                        } by {
                        assert(crate::pools::assoc_get(s0, v) == if crate::pools::assoc_get(old(self).substitutions@, v) is Some {
                            crate::pools::assoc_get(old(self).substitutions@, v)
                        } else {
                            crate::pools::assoc_get(other@.subrange(0, i as int), v)
                        });
                    }
                }
            }
            i = i + 1;
        }
        assert(other@.subrange(0, other@.len() as int) =~= other@);
    }
}

} // verus!

verus! {

/// Looking a key up after appending an entry.
proof fn lemma_assoc_get_push<K, V>(s: Seq<(K, V)>, x: (K, V), k: K)
    ensures
        crate::pools::assoc_get(s.push(x), k) == if crate::pools::assoc_get(s, k) is Some {
            crate::pools::assoc_get(s, k)
        } else if x.0 == k {
            Some(x.1)
        } else {
            None
        },
{
    assert(s.push(x).drop_last() =~= s);
    crate::pools::lemma_assoc_index(s, k);
    crate::pools::lemma_assoc_index(s.push(x), k);
}

/// The type that the last field called `name` in `fields` has.
pub open spec fn last_binding(fields: Seq<RowField>, name: InternedString) -> Option<TypeId>
    decreases fields.len(),
{
    if fields.len() == 0 {
        None
    } else if fields.last().name == name {
        Some(fields.last().field_type)
    } else {
        last_binding(fields.drop_last(), name)
    }
}

/// Fields strictly ordered by the number of their name.
pub open spec fn labels_sorted(fields: Seq<RowField>) -> bool {
    forall|i: int, j: int| 0 <= i < j < fields.len() ==> (#[trigger] fields[i]).name.0 < (#[trigger] fields[j]).name.0
}

/// `out` holds, for each name of `fields`, its last binding, and nothing else.
pub open spec fn labels_of(fields: Seq<RowField>, out: Seq<RowField>) -> bool {
    &&& forall|k: int| 0 <= k < out.len() ==> last_binding(fields, (#[trigger] out[k]).name) == Some(out[k].field_type)
    &&& forall|n: InternedString| #[trigger] last_binding(fields, n) is Some ==> exists|k: int| 0 <= k < out.len() && (#[trigger] out[k]).name == n
}

/// `fields` ordered by name with one entry per name (a later entry replaces an earlier one).
fn sorted_labels(pools: &Pools, fields: &Vec<RowField>) -> (r: Vec<RowField>)
    requires
        pools.fields_valid(fields@),
    ensures
        pools.fields_valid(r@),
        labels_sorted(r@),
        labels_of(fields@, r@),
{
    let mut out: Vec<RowField> = Vec::new();
    let mut i: usize = 0;
    while i < fields.len()
        invariant
            i <= fields@.len(),
            pools.fields_valid(fields@),
            pools.fields_valid(out@),
            labels_sorted(out@),
            labels_of(fields@.subrange(0, i as int), out@),
        decreases fields@.len() - i,
    {
        let f = fields[i];
        let ghost pre = fields@.subrange(0, i as int);
        let ghost post = fields@.subrange(0, i + 1);
        let ghost old_out = out@;
        proof {
            assert(post.drop_last() =~= pre);
            assert(post.last() == f);
        }
        let mut pos: usize = 0;
        while pos < out.len() && out[pos].name.0 < f.name.0
            invariant
                pos <= out@.len(),
                forall|k: int| 0 <= k < pos ==> (#[trigger] out@[k]).name.0 < f.name.0,
            decreases out@.len() - pos,
        {
            pos = pos + 1;
        }
        if pos < out.len() && out[pos].name.0 == f.name.0 {
            out.set(pos, f);
            proof {
                assert forall|k: int| 0 <= k < out@.len() implies last_binding(post, (#[trigger] out@[k]).name) == Some(out@[k].field_type) by {
                    if k != pos {
                        assert(out@[k] == old_out[k]);
                        assert(old_out[k].name != f.name);
                    }
                }
                assert forall|n: InternedString| #[trigger] last_binding(post, n) is Some implies exists|k: int| 0 <= k < out@.len() && (#[trigger] out@[k]).name == n by {
                    if n == f.name {
                        assert(out@[pos as int].name == n);
                    } else {
                        assert(last_binding(pre, n) is Some);
                        let k = choose|k: int| 0 <= k < old_out.len() && (#[trigger] old_out[k]).name == n;
                        assert(out@[k].name == n);
                    }
                }
            }
        } else {
            out.insert(pos, f);
            proof {
                assert forall|k: int| 0 <= k < out@.len() implies last_binding(post, (#[trigger] out@[k]).name) == Some(out@[k].field_type) by {
                    if k < pos {
                        assert(out@[k] == old_out[k]);
                        assert(old_out[k].name != f.name);
                    } else if k > pos {
                        assert(out@[k] == old_out[k - 1]);
                        assert(old_out[k - 1].name != f.name) by {
                            if k - 1 > pos {
                                assert(old_out[pos as int].name.0 < old_out[k - 1].name.0);
                            }
                        }
                    }
                }
                assert forall|n: InternedString| #[trigger] last_binding(post, n) is Some implies exists|k: int| 0 <= k < out@.len() && (#[trigger] out@[k]).name == n by {
                    if n == f.name {
                        assert(out@[pos as int].name == n);
                    } else {
                        assert(last_binding(pre, n) is Some);
                        let k = choose|k: int| 0 <= k < old_out.len() && (#[trigger] old_out[k]).name == n;
                        if k < pos {
                            assert(out@[k].name == n);
                        } else {
                            assert(out@[k + 1].name == n);
                        }
                    }
                }
                assert forall|a: int, b: int| 0 <= a < b < out@.len() implies (#[trigger] out@[a]).name.0 < (#[trigger] out@[b]).name.0 by {
                    if pos < old_out.len() {
                        assert(f.name.0 < old_out[pos as int].name.0);
                    }
                    if a < pos && b == pos {
                    } else if a < pos && b > pos {
                        assert(out@[b] == old_out[b - 1]);
                    } else if a == pos {
                        assert(out@[b] == old_out[b - 1]);
                        if b - 1 > pos {
                            assert(old_out[pos as int].name.0 < old_out[b - 1].name.0);
                        }
                    } else if a > pos {
                        assert(out@[a] == old_out[a - 1]);
                        assert(out@[b] == old_out[b - 1]);
                    }
                }
            }
        }
        proof {
            assert forall|k: int| 0 <= k < out@.len() implies (#[trigger] out@[k]).field_type.0 < pools.types@.len() by {}
        }
        i = i + 1;
    }
    assert(fields@.subrange(0, fields@.len() as int) =~= fields@);
    out
}

impl PooledTypingContext {
    /// Unifies `t1` with `t2`, recording bindings in the substitution; a variable of
    /// `protected_vars` that stands alone is not bound. Two types whose outermost
    /// constructors differ at some position reached through function arrows never unify.
    pub fn unify(
        &mut self,
        pools: &mut Pools,
        t1: TypeId,
        t2: TypeId,
        protected_vars: &Vec<TypeVarId>,
        span1: SpanId,
        span2: SpanId,
    ) -> (r: Result<(), TypeError>)
        requires
            old(pools).wf(),
            old(self).wf_in(old(pools)),
            old(pools).valid_type(t1),
            old(pools).valid_type(t2),
        ensures
            final(pools).wf(),
            old(pools).only_types_grow(final(pools)),
            final(self).wf_in(final(pools)),
            final(self).type_schemes == old(self).type_schemes,
            final(self).expr_types == old(self).expr_types,
            r matches Err(e) ==> e.types_valid(final(pools)),
            same_base(old(pools).types@[t1.0 as int], old(pools).types@[t2.0 as int]) ==> r is Ok
                && final(self).substitutions == old(self).substitutions,
            is_base(old(pools).types@[t1.0 as int]) && is_base(old(pools).types@[t2.0 as int])
                && !same_base(old(pools).types@[t1.0 as int], old(pools).types@[t2.0 as int]) ==> r is Err,
            unbound_protected_var_unifies(old(self).substitutions@, protected_vars@, old(pools).types@[t1.0 as int], r, final(self).substitutions@),
            unbound_var_binds(old(self).substitutions@, protected_vars@, old(pools).types@[t1.0 as int], old(pools).types@[t2.0 as int], r, final(self).substitutions@, final(pools).types@),
            unbound_var_bound(old(self).substitutions@, protected_vars@, old(pools).types@[t1.0 as int], old(pools).types@[t2.0 as int], r, final(self).substitutions@, final(pools).types@),
            protected_second_unifies(old(self).substitutions@, protected_vars@, old(pools).types@[t1.0 as int], old(pools).types@[t2.0 as int], r, final(self).substitutions@),
            unbound_var_fails_occurs(old(self).substitutions@, protected_vars@, old(pools).types@[t1.0 as int], old(pools).types@[t2.0 as int], r, final(pools), final(self).substitutions@),
            types_clash(old(pools).types@, t1.0 as int, old(pools).types@, t2.0 as int, UNIFY_DEPTH as int) ==> r is Err,
    {
        self.unify_depth(pools, t1, t2, protected_vars, span1, span2, UNIFY_DEPTH)
    }

    fn depth_error(pools: &Pools, span: SpanId) -> (r: TypeError)
        ensures
            r.types_valid(pools),
    {
        let msg = chars_to_string(&str_to_chars("Unification too deep"));
        RichTypeError::type_error(msg, span)
    }

    fn bind_var(&mut self, pools: &Pools, var: usize, t: TypeId)
        requires
            old(self).wf_in(pools),
            pools.valid_type(t),
        ensures
            final(self).wf_in(pools),
            final(self).type_schemes == old(self).type_schemes,
            final(self).expr_types == old(self).expr_types,
            final(self).substitutions@ == crate::pools::assoc_put(old(self).substitutions@, var, t),
    {
        let ghost s0 = self.substitutions@;
        subst_insert(&mut self.substitutions, var, t);
        proof {
            lemma_subst_put_valid(pools, s0, var, t);
        }
    }

    fn unify_depth(
        &mut self,
        pools: &mut Pools,
        t1: TypeId,
        t2: TypeId,
        protected_vars: &Vec<TypeVarId>,
        span1: SpanId,
        span2: SpanId,
        fuel: usize,
    ) -> (r: Result<(), TypeError>)
        requires
            old(pools).wf(),
            old(self).wf_in(old(pools)),
            old(pools).valid_type(t1),
            old(pools).valid_type(t2),
        ensures
            final(pools).wf(),
            old(pools).only_types_grow(final(pools)),
            final(self).wf_in(final(pools)),
            final(self).type_schemes == old(self).type_schemes,
            final(self).expr_types == old(self).expr_types,
            r matches Err(e) ==> e.types_valid(final(pools)),
            fuel > 0 && same_base(old(pools).types@[t1.0 as int], old(pools).types@[t2.0 as int]) ==> r is Ok
                && final(self).substitutions == old(self).substitutions,
            fuel > 0 && is_base(old(pools).types@[t1.0 as int]) && is_base(old(pools).types@[t2.0 as int])
                && !same_base(old(pools).types@[t1.0 as int], old(pools).types@[t2.0 as int]) ==> r is Err,
            fuel > 0 ==> unbound_protected_var_unifies(old(self).substitutions@, protected_vars@, old(pools).types@[t1.0 as int], r, final(self).substitutions@),
            fuel > 0 ==> unbound_var_binds(old(self).substitutions@, protected_vars@, old(pools).types@[t1.0 as int], old(pools).types@[t2.0 as int], r, final(self).substitutions@, final(pools).types@),
            fuel > 0 ==> unbound_var_bound(old(self).substitutions@, protected_vars@, old(pools).types@[t1.0 as int], old(pools).types@[t2.0 as int], r, final(self).substitutions@, final(pools).types@),
            fuel > 0 ==> unbound_var_fails_occurs(old(self).substitutions@, protected_vars@, old(pools).types@[t1.0 as int], old(pools).types@[t2.0 as int], r, final(pools), final(self).substitutions@),
            fuel > 0 ==> protected_second_unifies(old(self).substitutions@, protected_vars@, old(pools).types@[t1.0 as int], old(pools).types@[t2.0 as int], r, final(self).substitutions@),
            types_clash(old(pools).types@, t1.0 as int, old(pools).types@, t2.0 as int, fuel as int) ==> r is Err,
        decreases fuel, 2nat,
    {
        if fuel == 0 {
            return Err(Self::depth_error(pools, span1));
        }
        let ghost clash = types_clash(old(pools).types@, t1.0 as int, old(pools).types@, t2.0 as int, fuel as int);
        let ghost dd: nat = choose|d: nat| d < fuel && #[trigger] arrow_clash(old(pools).types@, t1.0 as int, old(pools).types@, t2.0 as int, d);
        let ghost t1_in = t1;
        let ghost t2_in = t2;
        let ghost p0 = *pools;
        let t1 = self.apply_substitutions(pools, t1);
        proof {
            self.lemma_wf_grow(&*old(pools), &*pools);
        }
        let ghost p1 = *pools;
        let t2 = self.apply_substitutions(pools, t2);
        proof {
            self.lemma_wf_grow(&p1, &*pools);
            if clash {
                lemma_clash_applied(&p0, &p1, t1_in.0 as int, t1.0 as int, self.substitutions@, self.spec_apply_fuel(&p0) as nat, p0.types@, t2_in.0 as int, dd);
                lemma_clash_grow(p1.types@, p1.types@, t1.0 as int, p0.types@, p1.types@, t2_in.0 as int, dd);
                lemma_clash_symm(p1.types@, t1.0 as int, p1.types@, t2_in.0 as int, dd);
                lemma_clash_applied(&p1, &*pools, t2_in.0 as int, t2.0 as int, self.substitutions@, self.spec_apply_fuel(&p1) as nat, p1.types@, t1.0 as int, dd);
                lemma_clash_grow(pools.types@, pools.types@, t2.0 as int, p1.types@, pools.types@, t1.0 as int, dd);
                lemma_clash_symm(pools.types@, t2.0 as int, pools.types@, t1.0 as int, dd);
            }
        }
        if t1.0 == t2.0 {
            proof {
                lemma_clash_irrefl(pools.types@, t1.0 as int, dd);
            }
            return Ok(());
        }
        let ty1 = pools.types[t1.0];
        let ty2 = pools.types[t2.0];
        proof {
            assert(pools.type_node_ok(pools.types@[t1.0 as int], t1.0 as int));
            assert(pools.type_node_ok(pools.types@[t2.0 as int], t2.0 as int));
        }
        let ghost p2 = *pools;
        match (ty1, ty2) {
            (Type::Int(_), Type::Int(_)) => Ok(()),
            (Type::String(_), Type::String(_)) => Ok(()),
            (Type::Unit(_), Type::Unit(_)) => Ok(()),
            (Type::EmptyRow(_), Type::EmptyRow(_)) => Ok(()),
            (Type::Var(var, _), _) => {
                if contains_var(protected_vars, var.0) {
                    Ok(())
                } else if self.occurs_check(var, pools, t2) {
                    match pools.types[t2.0] {
                        Type::Var(var2, _) => {
                            if var.0 == var2.0 {
                                return Ok(());
                            }
                        },
                        _ => {},
                    }
                    Err(RichTypeError::occurs_check(var, t2, span1, span1))
                } else {
                    let ghost s0 = self.substitutions@;
                    self.bind_var(pools, var.0, t2);
                    proof {
                        crate::pools::lemma_assoc_put_get(s0, var.0, t2, var.0);
                    }
                    Ok(())
                }
            },
            (_, Type::Var(var, _)) => {
                if contains_var(protected_vars, var.0) {
                    Ok(())
                } else if self.occurs_check(var, pools, t1) {
                    match pools.types[t1.0] {
                        Type::Var(var2, _) => {
                            if var.0 == var2.0 {
                                return Ok(());
                            }
                        },
                        _ => {},
                    }
                    Err(RichTypeError::occurs_check(var, t1, span2, span2))
                } else {
                    self.bind_var(pools, var.0, t1);
                    Ok(())
                }
            },
            (Type::Arrow(from1, to1, _), Type::Arrow(from2, to2, _)) => {
                proof {
                    if clash {
                        if arrow_clash(p2.types@, from1.0 as int, p2.types@, from2.0 as int, (dd - 1) as nat) {
                            assert(types_clash(p2.types@, from1.0 as int, p2.types@, from2.0 as int, (fuel - 1) as int));
                        }
                    }
                }
                let r1 = self.unify_depth(pools, from1, from2, protected_vars, span1, span2, fuel - 1);
                if let Err(e) = r1 {
                    return Err(e);
                }
                proof {
                    self.lemma_wf_grow(&*pools, &*pools);
                    if clash {
                        if arrow_clash(p2.types@, from1.0 as int, p2.types@, from2.0 as int, (dd - 1) as nat) {
                            assert(types_clash(p2.types@, from1.0 as int, p2.types@, from2.0 as int, (fuel - 1) as int));
                        }
                        lemma_clash_grow(p2.types@, pools.types@, to1.0 as int, p2.types@, pools.types@, to2.0 as int, (dd - 1) as nat);
                        assert(types_clash(pools.types@, to1.0 as int, pools.types@, to2.0 as int, (fuel - 1) as int));
                    }
                }
                self.unify_depth(pools, to1, to2, protected_vars, span1, span2, fuel - 1)
            },
            (Type::DataType(name1, start1, len1, _), Type::DataType(name2, start2, len2, _)) => {
                if name1 == name2 && len1 == len2 {
                    let params1 = pools.get_data_type_params(start1.0, len1);
                    let params2 = pools.get_data_type_params(start2.0, len2);
                    assert(pools.all_valid_types(params1@)) by {
                        assert forall|k: int| 0 <= k < params1@.len() implies #[trigger] params1@[k].0 < pools.types@.len() by {
                            assert(params1@[k] == pools.type_params@[start1.0 + k]);
                        }
                    }
                    assert(pools.all_valid_types(params2@)) by {
                        assert forall|k: int| 0 <= k < params2@.len() implies #[trigger] params2@[k].0 < pools.types@.len() by {
                            assert(params2@[k] == pools.type_params@[start2.0 + k]);
                        }
                    }
                    self.unify_forward(pools, &params1, &params2, protected_vars, span1, span2, fuel - 1)
                } else {
                    Err(RichTypeError::type_mismatch(t2, t1, span2, span1, None, None, None))
                }
            },
            (Type::DataType(_, start1, len1, _), Type::TypeApp(var_id, start2, len2, _)) => {
                self.unify_data_app(pools, t1, start1.0, len1, var_id, start2.0, len2, protected_vars, span1, span2, fuel)
            },
            (Type::TypeApp(var_id, start2, len2, _), Type::DataType(_, start1, len1, _)) => {
                self.unify_data_app(pools, t1, start1.0, len1, var_id, start2.0, len2, protected_vars, span1, span2, fuel)
            },
            (Type::TypeApp(var_id, start, len, _), Type::Arrow(from_id, to_id, _)) => {
                self.unify_app_arrow(pools, t1, t2, var_id, start.0, len, from_id, to_id, protected_vars, span1, span2, fuel)
            },
            (Type::Arrow(from_id, to_id, _), Type::TypeApp(var_id, start, len, _)) => {
                self.unify_app_arrow(pools, t1, t2, var_id, start.0, len, from_id, to_id, protected_vars, span1, span2, fuel)
            },
            (Type::TypeApp(var1, start1, len1, _), Type::TypeApp(var2, start2, len2, _)) => {
                if var1.0 == var2.0 {
                    let params1 = pools.get_data_type_params(start1.0, len1);
                    let params2 = pools.get_data_type_params(start2.0, len2);
                    assert(pools.all_valid_types(params1@)) by {
                        assert forall|k: int| 0 <= k < params1@.len() implies #[trigger] params1@[k].0 < pools.types@.len() by {
                            assert(params1@[k] == pools.type_params@[start1.0 + k]);
                        }
                    }
                    assert(pools.all_valid_types(params2@)) by {
                        assert forall|k: int| 0 <= k < params2@.len() implies #[trigger] params2@[k].0 < pools.types@.len() by {
                            assert(params2@[k] == pools.type_params@[start2.0 + k]);
                        }
                    }
                    self.bind_var(pools, var1.0, t2);
                    self.unify_backward(pools, &params1, &params2, protected_vars, span1, span2, fuel - 1)
                } else if len1 == len2 {
                    let p1 = contains_var(protected_vars, var1.0);
                    let p2 = contains_var(protected_vars, var2.0);
                    if p1 && p2 {
                        Err(RichTypeError::protected_variable_failure(var1, t2, span1, span2))
                    } else if p1 {
                        if self.occurs_check(var2, pools, t1) {
                            Err(RichTypeError::occurs_check(var2, t1, span2, span2))
                        } else {
                            self.bind_var(pools, var2.0, t1);
                            Ok(())
                        }
                    } else {
                        if self.occurs_check(var1, pools, t2) {
                            Err(RichTypeError::occurs_check(var1, t2, span1, span1))
                        } else {
                            self.bind_var(pools, var1.0, t2);
                            Ok(())
                        }
                    }
                } else {
                    Err(RichTypeError::arity_mismatch(t2, t1, len2, len1, span2, span1))
                }
            },
            (Type::Row(start1, len1, rest1, _), Type::Row(start2, len2, rest2, _)) => {
                self.unify_rows(pools, start1.0, len1, rest1, start2.0, len2, rest2, protected_vars, span1, span2, fuel - 1)
            },
            (Type::Row(_, len, rest, _), Type::EmptyRow(_)) => {
                if len == 0 {
                    self.unify_depth(pools, rest, t2, protected_vars, span1, span2, fuel - 1)
                } else {
                    let msg = chars_to_string(&str_to_chars("Row with fields cannot unify with EmptyRow"));
                    Err(RichTypeError::row_mismatch(t2, t1, span2, span1, msg))
                }
            },
            (Type::EmptyRow(_), Type::Row(_, len, rest, _)) => {
                if len == 0 {
                    self.unify_depth(pools, t1, rest, protected_vars, span1, span2, fuel - 1)
                } else {
                    let msg = chars_to_string(&str_to_chars("Row with fields cannot unify with EmptyRow"));
                    Err(RichTypeError::row_mismatch(t2, t1, span2, span1, msg))
                }
            },
            _ => Err(RichTypeError::type_mismatch(t2, t1, span2, span1, None, None, None)),
        }
    }

    /// A data type `t1` against a type application: parameters are unified from the last.
    fn unify_data_app(
        &mut self,
        pools: &mut Pools,
        t1: TypeId,
        start1: usize,
        len1: usize,
        var_id: TypeVarId,
        start2: usize,
        len2: usize,
        protected_vars: &Vec<TypeVarId>,
        span1: SpanId,
        span2: SpanId,
        fuel: usize,
    ) -> (r: Result<(), TypeError>)
        requires
            old(pools).wf(),
            old(self).wf_in(old(pools)),
            old(pools).valid_type(t1),
            start1 + len1 <= old(pools).type_params@.len(),
            start2 + len2 <= old(pools).type_params@.len(),
            forall|k: int| start1 <= k < start1 + len1 ==> (#[trigger] old(pools).type_params@[k]).0 < old(pools).types@.len(),
            forall|k: int| start2 <= k < start2 + len2 ==> (#[trigger] old(pools).type_params@[k]).0 < old(pools).types@.len(),
            fuel > 0,
        ensures
            final(pools).wf(),
            old(pools).only_types_grow(final(pools)),
            final(self).wf_in(final(pools)),
            final(self).type_schemes == old(self).type_schemes,
            final(self).expr_types == old(self).expr_types,
            r matches Err(e) ==> e.types_valid(final(pools)),
            len1 == len2 && (exists|i: int| 0 <= i < protected_vars@.len() && protected_vars@[i].0 == var_id.0) ==> r
                == Err::<(), TypeError>(RichTypeError::ProtectedVariableFailure {
                protected_var: var_id,
                conflicting_type: t1,
                var_span: span2,
                type_span: span1,
            }),
            len2 > len1 ==> r == Err::<(), TypeError>(RichTypeError::ArityMismatch {
                expected_type: t1,
                found_type: t1,
                expected_arity: len2,
                found_arity: len1,
                expected_span: span2,
                found_span: span1,
            }),
        decreases fuel, 1nat,
    {
        let params1 = pools.get_data_type_params(start1, len1);
        let params2 = pools.get_data_type_params(start2, len2);
        assert(pools.all_valid_types(params1@)) by {
            assert forall|k: int| 0 <= k < params1@.len() implies #[trigger] params1@[k].0 < pools.types@.len() by {
                assert(params1@[k] == pools.type_params@[start1 + k]);
            }
        }
        assert(pools.all_valid_types(params2@)) by {
            assert forall|k: int| 0 <= k < params2@.len() implies #[trigger] params2@[k].0 < pools.types@.len() by {
                assert(params2@[k] == pools.type_params@[start2 + k]);
            }
        }
        if len1 == len2 {
            if contains_var(protected_vars, var_id.0) {
                return Err(RichTypeError::protected_variable_failure(var_id, t1, span2, span1));
            }
            self.unify_backward(pools, &params1, &params2, protected_vars, span1, span2, fuel - 1)
        } else if len2 < len1 {
            self.unify_backward(pools, &params1, &params2, protected_vars, span1, span2, fuel - 1)
        } else {
            Err(RichTypeError::arity_mismatch(t1, t1, len2, len1, span2, span1))
        }
    }

    /// A type application against an arrow `from -> to`.
    fn unify_app_arrow(
        &mut self,
        pools: &mut Pools,
        t1: TypeId,
        t2: TypeId,
        var_id: TypeVarId,
        start: usize,
        len: usize,
        from_id: TypeId,
        to_id: TypeId,
        protected_vars: &Vec<TypeVarId>,
        span1: SpanId,
        span2: SpanId,
        fuel: usize,
    ) -> (r: Result<(), TypeError>)
        requires
            old(pools).wf(),
            old(self).wf_in(old(pools)),
            old(pools).valid_type(t1),
            old(pools).valid_type(t2),
            old(pools).valid_type(from_id),
            old(pools).valid_type(to_id),
            start + len <= old(pools).type_params@.len(),
            forall|k: int| start <= k < start + len ==> (#[trigger] old(pools).type_params@[k]).0 < old(pools).types@.len(),
            fuel > 0,
        ensures
            final(pools).wf(),
            old(pools).only_types_grow(final(pools)),
            final(self).wf_in(final(pools)),
            final(self).type_schemes == old(self).type_schemes,
            final(self).expr_types == old(self).expr_types,
            r matches Err(e) ==> e.types_valid(final(pools)),
            (exists|i: int| 0 <= i < protected_vars@.len() && protected_vars@[i].0 == var_id.0) ==> r
                == Err::<(), TypeError>(RichTypeError::ProtectedVariableFailure {
                protected_var: var_id,
                conflicting_type: t1,
                var_span: span2,
                type_span: span1,
            }),
            !(exists|i: int| 0 <= i < protected_vars@.len() && protected_vars@[i].0 == var_id.0) && len != 0 && len != 2 ==> r
                == Err::<(), TypeError>(RichTypeError::ArityMismatch {
                expected_type: t2,
                found_type: t1,
                expected_arity: 2,
                found_arity: len,
                expected_span: span2,
                found_span: span1,
            }),
            !(exists|i: int| 0 <= i < protected_vars@.len() && protected_vars@[i].0 == var_id.0) && len == 0 ==> r is Ok
                && final(pools).types@[old(pools).types@.len() as int] == Type::Arrow(from_id, to_id, SpanId(0))
                && final(self).substitutions@ == crate::pools::assoc_put(
                old(self).substitutions@,
                var_id.0,
                TypeId(old(pools).types@.len() as usize),
            ),
        decreases fuel, 1nat,
    {
        if contains_var(protected_vars, var_id.0) {
            return Err(RichTypeError::protected_variable_failure(var_id, t1, span2, span1));
        }
        let params = pools.get_data_type_params(start, len);
        assert(pools.all_valid_types(params@)) by {
            assert forall|k: int| 0 <= k < params@.len() implies #[trigger] params@[k].0 < pools.types@.len() by {
                assert(params@[k] == pools.type_params@[start + k]);
            }
        }
        if len == 2 {
            let arrow_type = pools.type_arrow(params[0], params[1]);
            proof {
                self.lemma_wf_grow(&*old(pools), &*pools);
            }
            self.bind_var(pools, var_id.0, arrow_type);
            let r1 = self.unify_depth(pools, params[0], from_id, protected_vars, span1, span2, fuel - 1);
            if let Err(e) = r1 {
                return Err(e);
            }
            self.unify_depth(pools, params[1], to_id, protected_vars, span1, span2, fuel - 1)
        } else if len < 2 {
            if len == 1 {
                Err(RichTypeError::arity_mismatch(t2, t1, 2, len, span2, span1))
            } else {
                let arrow_type = pools.type_arrow(from_id, to_id);
                proof {
                    self.lemma_wf_grow(&*old(pools), &*pools);
                }
                self.bind_var(pools, var_id.0, arrow_type);
                Ok(())
            }
        } else {
            Err(RichTypeError::arity_mismatch(t2, t1, 2, len, span2, span1))
        }
    }

    /// Unifies `params1[i]` with `params2[i]` from the first index on.
    fn unify_forward(
        &mut self,
        pools: &mut Pools,
        params1: &Vec<TypeId>,
        params2: &Vec<TypeId>,
        protected_vars: &Vec<TypeVarId>,
        span1: SpanId,
        span2: SpanId,
        fuel: usize,
    ) -> (r: Result<(), TypeError>)
        requires
            old(pools).wf(),
            old(self).wf_in(old(pools)),
            old(pools).all_valid_types(params1@),
            old(pools).all_valid_types(params2@),
        ensures
            final(pools).wf(),
            old(pools).only_types_grow(final(pools)),
            final(self).wf_in(final(pools)),
            final(self).type_schemes == old(self).type_schemes,
            final(self).expr_types == old(self).expr_types,
            r matches Err(e) ==> e.types_valid(final(pools)),
        decreases fuel, 3nat,
    {
        let mut i: usize = 0;
        while i < params1.len() && i < params2.len()
            invariant
                pools.wf(),
                old(pools).only_types_grow(pools),
                self.wf_in(pools),
                self.type_schemes == old(self).type_schemes,
                self.expr_types == old(self).expr_types,
                old(pools).all_valid_types(params1@),
                old(pools).all_valid_types(params2@),
            decreases params1@.len() - i,
        {
            let r = self.unify_depth(pools, params1[i], params2[i], protected_vars, span1, span2, fuel);
            if let Err(e) = r {
                return Err(e);
            }
            i = i + 1;
        }
        Ok(())
    }

    /// Unifies the parameters pairwise from the last index of each list backwards.
    pub fn unify_params(
        &mut self,
        pools: &mut Pools,
        params1: &Vec<TypeId>,
        params2: &Vec<TypeId>,
        protected_vars: &Vec<TypeVarId>,
        span1: SpanId,
        span2: SpanId,
    ) -> (r: Result<(), TypeError>)
        requires
            old(pools).wf(),
            old(self).wf_in(old(pools)),
            old(pools).all_valid_types(params1@),
            old(pools).all_valid_types(params2@),
        ensures
            final(pools).wf(),
            old(pools).only_types_grow(final(pools)),
            final(self).wf_in(final(pools)),
            final(self).type_schemes == old(self).type_schemes,
            final(self).expr_types == old(self).expr_types,
            r matches Err(e) ==> e.types_valid(final(pools)),
            r is Ok ==> no_base_clash(old(pools), params1@, params2@, aligned_pair_count(params1@, params2@)),
            all_same_base(old(pools), params1@, params2@, aligned_pair_count(params1@, params2@)) ==> r is Ok
                && final(self).substitutions == old(self).substitutions,
    {
        self.unify_backward(pools, params1, params2, protected_vars, span1, span2, UNIFY_DEPTH)
    }

    fn unify_backward(
        &mut self,
        pools: &mut Pools,
        params1: &Vec<TypeId>,
        params2: &Vec<TypeId>,
        protected_vars: &Vec<TypeVarId>,
        span1: SpanId,
        span2: SpanId,
        fuel: usize,
    ) -> (r: Result<(), TypeError>)
        requires
            old(pools).wf(),
            old(self).wf_in(old(pools)),
            old(pools).all_valid_types(params1@),
            old(pools).all_valid_types(params2@),
        ensures
            final(pools).wf(),
            old(pools).only_types_grow(final(pools)),
            final(self).wf_in(final(pools)),
            final(self).type_schemes == old(self).type_schemes,
            final(self).expr_types == old(self).expr_types,
            r matches Err(e) ==> e.types_valid(final(pools)),
            fuel > 0 && r is Ok ==> no_base_clash(old(pools), params1@, params2@, aligned_pair_count(params1@, params2@)),
            fuel > 0 && all_same_base(old(pools), params1@, params2@, aligned_pair_count(params1@, params2@)) ==> r is Ok
                && final(self).substitutions == old(self).substitutions,
        decreases fuel, 3nat,
    {
        let mut i: usize = params1.len();
        let mut j: usize = params2.len();
        while i > 0 && j > 0
            invariant
                pools.wf(),
                old(pools).only_types_grow(pools),
                self.wf_in(pools),
                self.type_schemes == old(self).type_schemes,
                self.expr_types == old(self).expr_types,
                old(pools).all_valid_types(params1@),
                old(pools).all_valid_types(params2@),
                i <= params1@.len(),
                j <= params2@.len(),
                params1@.len() - i == params2@.len() - j,
                fuel > 0 ==> no_base_clash(old(pools), params1@, params2@, params1@.len() - i),
                fuel > 0 && all_same_base(old(pools), params1@, params2@, aligned_pair_count(params1@, params2@))
                    ==> self.substitutions == old(self).substitutions,
            decreases i,
        {
            let ghost c = params1@.len() - i;
            proof {
                assert(params1@[i - 1] == params1@[params1@.len() - 1 - c]);
                assert(params2@[j - 1] == params2@[params2@.len() - 1 - c]);
                assert(pools.types@[params1@[i - 1].0 as int] == old(pools).types@[params1@[i - 1].0 as int]);
                assert(pools.types@[params2@[j - 1].0 as int] == old(pools).types@[params2@[j - 1].0 as int]);
                if fuel > 0 && all_same_base(old(pools), params1@, params2@, aligned_pair_count(params1@, params2@)) {
                    assert(same_base(old(pools).types@[params1@[params1@.len() - 1 - c].0 as int], old(pools).types@[params2@[params2@.len() - 1 - c].0 as int]));
                }
            }
            let r = self.unify_depth(pools, params1[i - 1], params2[j - 1], protected_vars, span1, span2, fuel);
            if let Err(e) = r {
                return Err(e);
            }
            proof {
                if fuel > 0 {
                    assert forall|k: int| 0 <= k < c + 1 implies !(is_base(old(pools).types@[params1@[params1@.len() - 1 - k].0 as int]) && is_base(
                        old(pools).types@[#[trigger] params2@[params2@.len() - 1 - k].0 as int],
                    ) && !same_base(old(pools).types@[params1@[params1@.len() - 1 - k].0 as int], old(pools).types@[params2@[params2@.len() - 1 - k].0 as int])) by {
                        if k < c {
                            assert(no_base_clash(old(pools), params1@, params2@, c));
                        }
                    }
                }
            }
            i = i - 1;
            j = j - 1;
        }
        Ok(())
    }

    /// Unifies two rows: common labels are unified, and each side's rest absorbs the
    /// labels only the other side has.
    fn unify_rows(
        &mut self,
        pools: &mut Pools,
        start1: usize,
        len1: usize,
        rest1: TypeId,
        start2: usize,
        len2: usize,
        rest2: TypeId,
        protected_vars: &Vec<TypeVarId>,
        span1: SpanId,
        span2: SpanId,
        fuel: usize,
    ) -> (r: Result<(), TypeError>)
        requires
            old(pools).wf(),
            old(self).wf_in(old(pools)),
            old(pools).valid_type(rest1),
            old(pools).valid_type(rest2),
            start1 + len1 <= old(pools).row_fields@.len(),
            start2 + len2 <= old(pools).row_fields@.len(),
            forall|k: int| start1 <= k < start1 + len1 ==> (#[trigger] old(pools).row_fields@[k]).field_type.0 < old(pools).types@.len(),
            forall|k: int| start2 <= k < start2 + len2 ==> (#[trigger] old(pools).row_fields@[k]).field_type.0 < old(pools).types@.len(),
        ensures
            final(pools).wf(),
            old(pools).only_types_grow(final(pools)),
            final(self).wf_in(final(pools)),
            final(self).type_schemes == old(self).type_schemes,
            final(self).expr_types == old(self).expr_types,
            r matches Err(e) ==> e.types_valid(final(pools)),
        decreases fuel, 4nat,
    {
        let fields1 = pools.get_row_fields(start1, len1);
        let fields2 = pools.get_row_fields(start2, len2);
        assert(pools.fields_valid(fields1@)) by {
            assert forall|k: int| 0 <= k < fields1@.len() implies (#[trigger] fields1@[k]).field_type.0 < pools.types@.len() by {
                assert(fields1@[k] == pools.row_fields@[start1 + k]);
            }
        }
        assert(pools.fields_valid(fields2@)) by {
            assert forall|k: int| 0 <= k < fields2@.len() implies (#[trigger] fields2@[k]).field_type.0 < pools.types@.len() by {
                assert(fields2@[k] == pools.row_fields@[start2 + k]);
            }
        }
        let final_rest1 = self.apply_substitutions(pools, rest1);
        proof {
            self.lemma_wf_grow(&*old(pools), &*pools);
        }
        let ghost pa = *pools;
        let final_rest2 = self.apply_substitutions(pools, rest2);
        proof {
            self.lemma_wf_grow(&pa, &*pools);
        }
        let labels1 = sorted_labels(pools, &fields1);
        let labels2 = sorted_labels(pools, &fields2);
        let mut missing1: Vec<RowField> = Vec::new();
        let mut missing2: Vec<RowField> = Vec::new();
        let r = self.unify_labels(pools, &mut missing1, &mut missing2, &labels1, &labels2, protected_vars, span1, span2, fuel);
        if let Err(e) = r {
            return Err(e);
        }
        let ghost pb = *pools;
        let empty1 = missing1.len() == 0;
        let empty2 = missing2.len() == 0;
        if empty1 && empty2 {
            self.unify_depth(pools, final_rest1, final_rest2, protected_vars, span1, span2, fuel)
        } else if empty1 {
            let new_row = pools.type_row(missing2.as_slice(), final_rest1);
            proof {
                self.lemma_wf_grow(&pb, &*pools);
            }
            self.unify_depth(pools, final_rest2, new_row, protected_vars, span1, span2, fuel)
        } else if empty2 {
            let new_row = pools.type_row(missing1.as_slice(), final_rest2);
            proof {
                self.lemma_wf_grow(&pb, &*pools);
            }
            self.unify_depth(pools, final_rest1, new_row, protected_vars, span1, span2, fuel)
        } else {
            match pools.types[final_rest1.0] {
                Type::EmptyRow(_) => {
                    let fresh = Self::fresh(pools, span1);
                    match fresh {
                        Err(e) => Err(e),
                        Ok(fresh_var) => {
                            let ghost pc = *pools;
                            let new_row = pools.type_row(missing1.as_slice(), fresh_var);
                            proof {
                                self.lemma_wf_grow(&pb, &*pools);
                            }
                            self.unify_depth(pools, final_rest1, new_row, protected_vars, span1, span2, fuel)
                        },
                    }
                },
                Type::Var(var_id, _) => {
                    if contains_var(protected_vars, var_id.0) {
                        return Err(RichTypeError::type_mismatch(rest2, rest1, span2, span1, None, None, None));
                    }
                    let fresh = Self::fresh(pools, span1);
                    match fresh {
                        Err(e) => Err(e),
                        Ok(new_rest_var) => {
                            let new_row2 = pools.type_row(missing2.as_slice(), new_rest_var);
                            proof {
                                self.lemma_wf_grow(&pb, &*pools);
                            }
                            let r2 = self.unify_depth(pools, final_rest2, new_row2, protected_vars, span1, span2, fuel);
                            if let Err(e) = r2 {
                                return Err(e);
                            }
                            if subst_lookup(&self.substitutions, var_id.0).is_some() {
                                return Err(RichTypeError::type_mismatch(rest2, rest1, span2, span1, None, None, None));
                            }
                            let ghost pd = *pools;
                            let new_row1 = pools.type_row(missing1.as_slice(), new_rest_var);
                            proof {
                                self.lemma_wf_grow(&pd, &*pools);
                            }
                            self.unify_depth(pools, final_rest1, new_row1, protected_vars, span1, span2, fuel)
                        },
                    }
                },
                _ => Err(RichTypeError::type_mismatch(rest2, rest1, span2, span1, None, None, None)),
            }
        }
    }

    /// Walks two name-ordered label lists: shared labels are unified, the others
    /// are collected as missing from the opposite side.
    fn unify_labels(
        &mut self,
        pools: &mut Pools,
        missing1: &mut Vec<RowField>,
        missing2: &mut Vec<RowField>,
        left_labels: &Vec<RowField>,
        right_labels: &Vec<RowField>,
        protected_vars: &Vec<TypeVarId>,
        span1: SpanId,
        span2: SpanId,
        fuel: usize,
    ) -> (r: Result<(), TypeError>)
        requires
            old(pools).wf(),
            old(self).wf_in(old(pools)),
            old(pools).fields_valid(left_labels@),
            old(pools).fields_valid(right_labels@),
            old(pools).fields_valid(old(missing1)@),
            old(pools).fields_valid(old(missing2)@),
        ensures
            final(pools).wf(),
            old(pools).only_types_grow(final(pools)),
            final(self).wf_in(final(pools)),
            final(self).type_schemes == old(self).type_schemes,
            final(self).expr_types == old(self).expr_types,
            final(pools).fields_valid(final(missing1)@),
            final(pools).fields_valid(final(missing2)@),
            r matches Err(e) ==> e.types_valid(final(pools)),
            r is Ok && labels_sorted(left_labels@) && labels_sorted(right_labels@) ==> final(missing2)@ == old(missing2)@
                + absent_labels(left_labels@, right_labels@, left_labels@.len() as int) && final(missing1)@ == old(missing1)@
                + absent_labels(right_labels@, left_labels@, right_labels@.len() as int),
        decreases fuel, 3nat,
    {
        let mut i1: usize = 0;
        let mut i2: usize = 0;
        while i1 < left_labels.len() && i2 < right_labels.len()
            invariant
                pools.wf(),
                old(pools).only_types_grow(pools),
                self.wf_in(pools),
                self.type_schemes == old(self).type_schemes,
                self.expr_types == old(self).expr_types,
                old(pools).fields_valid(left_labels@),
                old(pools).fields_valid(right_labels@),
                pools.fields_valid(missing1@),
                pools.fields_valid(missing2@),
                i1 <= left_labels@.len(),
                i2 <= right_labels@.len(),
                labels_sorted(left_labels@) && labels_sorted(right_labels@) ==> {
                    &&& forall|k: int, j: int| 0 <= k < i2 && i1 <= j < left_labels@.len() ==> (#[trigger] right_labels@[k]).name.0 < (#[trigger] left_labels@[j]).name.0
                    &&& forall|k: int, j: int| 0 <= k < i1 && i2 <= j < right_labels@.len() ==> (#[trigger] left_labels@[k]).name.0 < (#[trigger] right_labels@[j]).name.0
                    &&& missing2@ == old(missing2)@ + absent_labels(left_labels@, right_labels@, i1 as int)
                    &&& missing1@ == old(missing1)@ + absent_labels(right_labels@, left_labels@, i2 as int)
                },
            decreases left_labels@.len() + right_labels@.len() - i1 - i2,
        {
            let left = left_labels[i1];
            let right = right_labels[i2];
            let ghost m1 = missing1@;
            let ghost m2 = missing2@;
            proof {
                if labels_sorted(left_labels@) && labels_sorted(right_labels@) {
                    let ls = left_labels@;
                    let rs = right_labels@;
                    if left.name.0 == right.name.0 {
                        assert(rs[i2 as int].name == ls[i1 as int].name);
                        assert(has_label(rs, ls[i1 as int].name));
                        assert(has_label(ls, rs[i2 as int].name));
                    } else if left.name.0 < right.name.0 {
                        assert(!has_label(rs, ls[i1 as int].name)) by {
                            if has_label(rs, ls[i1 as int].name) {
                                let k = choose|k: int| 0 <= k < rs.len() && #[trigger] rs[k].name == ls[i1 as int].name;
                                if k < i2 {
                                    assert(rs[k].name.0 < ls[i1 as int].name.0);
                                } else if k > i2 {
                                    assert(rs[i2 as int].name.0 < rs[k].name.0);
                                }
                            }
                        }
                    } else {
                        assert(!has_label(ls, rs[i2 as int].name)) by {
                            if has_label(ls, rs[i2 as int].name) {
                                let k = choose|k: int| 0 <= k < ls.len() && #[trigger] ls[k].name == rs[i2 as int].name;
                                if k < i1 {
                                    assert(ls[k].name.0 < rs[i2 as int].name.0);
                                } else if k > i1 {
                                    assert(ls[i1 as int].name.0 < ls[k].name.0);
                                }
                            }
                        }
                    }
                }
            }
            if left.name.0 == right.name.0 {
                let r = self.unify_depth(pools, left.field_type, right.field_type, protected_vars, span1, span2, fuel);
                if let Err(e) = r {
                    return Err(e);
                }
                i1 = i1 + 1;
                i2 = i2 + 1;
            } else if left.name.0 < right.name.0 {
                missing2.push(left);
                i1 = i1 + 1;
            } else {
                missing1.push(right);
                i2 = i2 + 1;
            }
        }
        while i1 < left_labels.len()
            invariant
                pools.wf(),
                old(pools).fields_valid(left_labels@),
                old(pools).only_types_grow(pools),
                pools.fields_valid(missing2@),
                i1 <= left_labels@.len(),
                labels_sorted(left_labels@) && labels_sorted(right_labels@) ==> {
                    &&& forall|k: int, j: int| 0 <= k < right_labels@.len() && i1 <= j < left_labels@.len() ==> (#[trigger] right_labels@[k]).name.0 < (#[trigger] left_labels@[j]).name.0
                    &&& missing2@ == old(missing2)@ + absent_labels(left_labels@, right_labels@, i1 as int)
                },
            decreases left_labels@.len() - i1,
        {
            proof {
                if labels_sorted(left_labels@) && labels_sorted(right_labels@) {
                    let ls = left_labels@;
                    let rs = right_labels@;
                    assert(!has_label(rs, ls[i1 as int].name)) by {
                        if has_label(rs, ls[i1 as int].name) {
                            let k = choose|k: int| 0 <= k < rs.len() && #[trigger] rs[k].name == ls[i1 as int].name;
                            assert(rs[k].name.0 < ls[i1 as int].name.0);
                        }
                    }
                }
            }
            missing2.push(left_labels[i1]);
            i1 = i1 + 1;
        }
        while i2 < right_labels.len()
            invariant
                pools.wf(),
                old(pools).fields_valid(right_labels@),
                old(pools).only_types_grow(pools),
                pools.fields_valid(missing1@),
                i2 <= right_labels@.len(),
                labels_sorted(left_labels@) && labels_sorted(right_labels@) ==> {
                    &&& forall|k: int, j: int| 0 <= k < left_labels@.len() && i2 <= j < right_labels@.len() ==> (#[trigger] left_labels@[k]).name.0 < (#[trigger] right_labels@[j]).name.0
                    &&& missing1@ == old(missing1)@ + absent_labels(right_labels@, left_labels@, i2 as int)
                    &&& missing2@ == old(missing2)@ + absent_labels(left_labels@, right_labels@, left_labels@.len() as int)
                },
            decreases right_labels@.len() - i2,
        {
            proof {
                if labels_sorted(left_labels@) && labels_sorted(right_labels@) {
                    let ls = left_labels@;
                    let rs = right_labels@;
                    assert(!has_label(ls, rs[i2 as int].name)) by {
                        if has_label(ls, rs[i2 as int].name) {
                            let k = choose|k: int| 0 <= k < ls.len() && #[trigger] ls[k].name == rs[i2 as int].name;
                            assert(ls[k].name.0 < rs[i2 as int].name.0);
                        }
                    }
                }
            }
            missing1.push(right_labels[i2]);
            i2 = i2 + 1;
        }
        Ok(())
    }
}

} // verus!

verus! {

impl PooledTypingContext {
    /// What every inference step guarantees: the pools stay well formed and keep the
    /// program, the context stays valid, a result is a type node, the scope of bound
    /// variables is restored on success, and an error mentions only existing types.
    pub open spec fn infer_post(&self, after: &Self, a: &Pools, b: &Pools, r: Result<TypeId, TypeError>) -> bool {
        &&& b.wf()
        &&& a.keeps_program(b)
        &&& after.wf_in(b)
        &&& (r matches Ok(t) ==> b.valid_type(t) && after.type_schemes@ == self.type_schemes@)
        &&& (r matches Err(e) ==> e.types_valid(b))
    }

    /// The type of an expression, with no variables protected.
    pub fn infer_type(&mut self, pools: &mut Pools, expr_id: ExprId) -> (r: Result<TypeId, TypeError>)
        requires
            old(pools).wf(),
            old(self).wf_in(old(pools)),
            old(pools).valid_expr(expr_id),
        ensures
            old(self).infer_post(final(self), old(pools), final(pools), r),
            leaf_result(old(pools), final(pools), old(self).type_schemes@.len(), expr_id, r),
            variable_result(&*old(self), old(pools), final(pools), expr_id, r),
            recorded_result(old(pools), expr_id, old(self).expr_types@, final(self).expr_types@, r),
            surely_fails(old(pools).exprs@, expr_id.0 as int) ==> r is Err,
        decreases expr_id.0, 3nat,
    {
        let mut protected_vars: Vec<TypeVarId> = Vec::new();
        self.infer_type_fcp(pools, expr_id, &mut protected_vars)
    }

    /// The type of an expression under first-class polymorphism; the variables in
    /// `protected_vars` are never bound by unification.
    pub fn infer_type_fcp(
        &mut self,
        pools: &mut Pools,
        expr_id: ExprId,
        protected_vars: &mut Vec<TypeVarId>,
    ) -> (r: Result<TypeId, TypeError>)
        requires
            old(pools).wf(),
            old(self).wf_in(old(pools)),
            old(pools).valid_expr(expr_id),
        ensures
            old(self).infer_post(final(self), old(pools), final(pools), r),
            leaf_result(old(pools), final(pools), old(self).type_schemes@.len(), expr_id, r),
            variable_result(&*old(self), old(pools), final(pools), expr_id, r),
            recorded_result(old(pools), expr_id, old(self).expr_types@, final(self).expr_types@, r),
            surely_fails(old(pools).exprs@, expr_id.0 as int) ==> r is Err,
            final(protected_vars)@ == old(protected_vars)@,
        decreases expr_id.0, 2nat,
    {
        let expr = pools.exprs[expr_id.0];
        proof {
            assert(pools.expr_node_ok(pools.exprs@[expr_id.0 as int], expr_id.0 as int));
        }
        match expr {
            Expr::Int(_, _) => {
                let int_type = pools.type_int();
                self.record(expr_id, int_type);
                Ok(int_type)
            },
            Expr::String(_, _) => {
                let string_type = pools.type_string();
                self.record(expr_id, string_type);
                Ok(string_type)
            },
            Expr::Unit(_) => {
                let unit_type = pools.type_unit();
                self.record(expr_id, unit_type);
                Ok(unit_type)
            },
            Expr::Var(debruijn_index, name, span) => {
                match self.lookup_scheme(debruijn_index) {
                    Some(scheme) => self.instantiate_recorded(pools, expr_id, &scheme, span),
                    None => Err(RichTypeError::unbound_variable(name, span)),
                }
            },
            Expr::GlobalVar(_, name, span) => {
                match pools.get_global_scheme(&name) {
                    Some(scheme) => self.instantiate_recorded(pools, expr_id, &scheme, span),
                    None => Err(RichTypeError::unbound_variable(name, span)),
                }
            },
            Expr::Lambda(body_id, _, span) => self.infer_lambda(pools, expr_id, body_id, span, protected_vars),
            Expr::Let(value_id, body_id, _, _) => self.infer_let(pools, expr_id, value_id, body_id, protected_vars),
            Expr::Call(func_id, arg_id, span) => self.infer_call(pools, expr_id, func_id, arg_id, span, protected_vars),
            Expr::Construct(constructor, arg_id, span) => {
                self.infer_construct(pools, expr_id, constructor, arg_id, span, protected_vars)
            },
            Expr::Match(scrutinee, arms, span) => {
                self.infer_match(pools, expr_id, scrutinee, arms, span, protected_vars)
            },
            Expr::Record(start, len, span) => self.infer_record(pools, expr_id, start.0, len, span, protected_vars),
            Expr::Project(record_id, field_name, span) => {
                self.infer_project(pools, expr_id, record_id, field_name, span, protected_vars)
            },
            Expr::Extend(record_id, start, len, span) => {
                self.infer_extend(pools, expr_id, record_id, start.0, len, span, protected_vars)
            },
            Expr::Ffi(_, type_annotation, arg_expr, _) => {
                match arg_expr {
                    Some(arg_id) => {
                        let r = self.infer_type(pools, arg_id);
                        match r {
                            Err(e) => {
                                return Err(e);
                            },
                            Ok(_) => {},
                        }
                    },
                    None => {},
                }
                match type_annotation {
                    Some(type_id) => Ok(type_id),
                    None => Self::fresh(pools, SpanId(0)),
                }
            },
        }
    }

    /// Instantiates `scheme` with fresh variables and logs the type for `expr_id`.
    fn instantiate_recorded(&mut self, pools: &mut Pools, expr_id: ExprId, scheme: &TypeScheme, span: SpanId) -> (r: Result<TypeId, TypeError>)
        requires
            old(pools).wf(),
            old(self).wf_in(old(pools)),
            old(pools).valid_type(scheme.ty),
        ensures
            old(self).infer_post(final(self), old(pools), final(pools), r),
            (r is Ok) == (old(pools).next_type_var + scheme.quantified@.len() < usize::MAX),
            r matches Ok(t) ==> final(self).expr_types@ == old(self).expr_types@.push((expr_id, t))
                && final(self).substitutions == old(self).substitutions
                && final(pools).next_type_var == old(pools).next_type_var + scheme.quantified@.len()
                && exists|subs: Seq<(usize, TypeId)>| #[trigger] crate::types::fresh_binding(old(pools), final(pools), scheme.quantified@, subs)
                    && crate::types::substituted(old(pools), scheme.ty.0 as int, final(pools), t.0 as int, subs),
    {
        if pools.next_type_var >= usize::MAX - scheme.quantified.len() {
            let msg = chars_to_string(&str_to_chars("Ran out of type variables"));
            return Err(RichTypeError::type_error(msg, span));
        }
        let instantiated = scheme.instantiate(pools);
        proof {
            self.lemma_wf_grow(&*old(pools), &*pools);
        }
        self.record(expr_id, instantiated);
        Ok(instantiated)
    }
}

/// The body of the `k`-th implemented function is a literal, and the type of the function's
/// declared scheme is a base type other than the literal's, a function type or a data type.
pub open spec fn literal_body_clashes(pools: &Pools, k: int) -> bool {
    let name = pools.function_implementations@[k].0;
    let body = pools.exprs@[pools.function_implementations@[k].1.0 as int];
    let g = crate::pools::assoc_index(pools.globals@, name);
    &&& g != -1
    &&& is_literal(body)
    &&& {
        let t = pools.types@[crate::pools::assoc_get(pools.globals@, name).unwrap().ty.0 as int];
        &&& is_head(t)
        &&& !((body is Int && t is Int) || (body is String && t is String) || (body is Unit && t is Unit))
    }
}

/// The `k`-th implemented function has no declared scheme, or its body is a literal and its
/// declared scheme is that literal's base type, with no quantified variables.
pub open spec fn literal_body_matches(pools: &Pools, k: int) -> bool {
    let name = pools.function_implementations@[k].0;
    let body = pools.exprs@[pools.function_implementations@[k].1.0 as int];
    crate::pools::assoc_index(pools.globals@, name) == -1 || {
        let sc = crate::pools::assoc_get(pools.globals@, name).unwrap();
        let t = pools.types@[sc.ty.0 as int];
        &&& sc.quantified@.len() == 0
        &&& is_literal(body)
        &&& (body is Int && t is Int) || (body is String && t is String) || (body is Unit && t is Unit)
    }
}

/// An integer, string or unit literal.
pub open spec fn is_literal(e: Expr) -> bool {
    e is Int || e is String || e is Unit
}

/// `r` instantiates `sc` afresh: it succeeds while type variables remain, and its type is the
/// scheme's type with each quantified variable replaced by a fresh variable.
pub open spec fn instance_result(sc: TypeScheme, a: &Pools, b: &Pools, r: Result<TypeId, TypeError>) -> bool {
    &&& (r is Ok) == (a.next_type_var + sc.quantified@.len() < usize::MAX)
    &&& (r matches Ok(t) ==> exists|subs: Seq<(usize, TypeId)>| #[trigger] crate::types::fresh_binding(a, b, sc.quantified@, subs)
        && crate::types::substituted(a, sc.ty.0 as int, b, t.0 as int, subs))
}

/// A variable in scope, or a global with a scheme, has an instance of its scheme as its type.
pub open spec fn variable_result(c: &PooledTypingContext, a: &Pools, b: &Pools, expr_id: ExprId, r: Result<TypeId, TypeError>) -> bool {
    match a.exprs@[expr_id.0 as int] {
        Expr::Var(i, _, _) => i.0 < c.type_schemes@.len()
            ==> instance_result(c.type_schemes@[c.type_schemes@.len() - 1 - i.0], a, b, r),
        Expr::GlobalVar(_, name, _) => crate::pools::assoc_index(a.globals@, name) != -1
            ==> instance_result(crate::pools::assoc_get(a.globals@, name).unwrap(), a, b, r),
        _ => true,
    }
}

/// The expression at `e` calls a literal somewhere along calls, function bodies, `let`s,
/// projected records, extended records and matched values, so no typing exists for it.
pub open spec fn surely_fails(exprs: Seq<Expr>, e: int) -> bool
    decreases e,
{
    if e < 0 || e >= exprs.len() {
        false
    } else {
        match exprs[e] {
            Expr::Call(f, a, _) => (0 <= f.0 < e && (is_literal(exprs[f.0 as int]) || surely_fails(exprs, f.0 as int)))
                || (0 <= a.0 < e && surely_fails(exprs, a.0 as int)),
            Expr::Lambda(b, _, _) => 0 <= b.0 < e && surely_fails(exprs, b.0 as int),
            Expr::Let(v, b, _, _) => (0 <= v.0 < e && surely_fails(exprs, v.0 as int)) || (0 <= b.0 < e && surely_fails(
                exprs,
                b.0 as int,
            )),
            Expr::Project(x, _, _) => 0 <= x.0 < e && surely_fails(exprs, x.0 as int),
            Expr::Match(x, _, _) => 0 <= x.0 < e && surely_fails(exprs, x.0 as int),
            Expr::Extend(x, _, _, _) => 0 <= x.0 < e && surely_fails(exprs, x.0 as int),
            _ => false,
        }
    }
}

/// A literal or a variable has its type recorded as the last entry of the table.
pub open spec fn recorded_result(
    a: &Pools,
    expr_id: ExprId,
    before: Seq<(ExprId, TypeId)>,
    after: Seq<(ExprId, TypeId)>,
    r: Result<TypeId, TypeError>,
) -> bool {
    let e = a.exprs@[expr_id.0 as int];
    (is_literal(e) || e is Var || e is GlobalVar) ==> (r matches Ok(t) ==> after == before.push((expr_id, t)))
}

/// A literal's type node is the literal's own type: `Int`, `String` or `Unit`.
pub open spec fn literal_typed(e: Expr, t: Type) -> bool {
    match e {
        Expr::Int(..) => t is Int,
        Expr::String(..) => t is String,
        Expr::Unit(..) => t is Unit,
        _ => true,
    }
}

/// Type `t`, in `b`, of extending a record by the fields `start..start+len` of `a`: a row that
/// lists exactly those fields' labels, in their order, each with a type inferred for its
/// expression (a literal's own type), over a type variable that stands for the extended record.
pub open spec fn extension_row(a: &Pools, b: &Pools, start: int, len: int, t: TypeId) -> bool {
    match b.types@[t.0 as int] {
        Type::Row(s, l, rest, _) => {
            &&& l == len
            &&& s.0 + len <= b.row_fields@.len()
            &&& b.types@[rest.0 as int] is Var
            &&& forall|k: int| 0 <= k < len ==> (#[trigger] b.row_fields@[s.0 + k]).name == a.record_fields@[start + k].name
                && literal_typed(a.exprs@[a.record_fields@[start + k].expr.0 as int], b.types@[b.row_fields@[s.0 + k].field_type.0 as int])
        },
        _ => false,
    }
}

/// The results that the shape of the expression alone decides.
pub open spec fn leaf_result(a: &Pools, b: &Pools, scope: nat, expr_id: ExprId, r: Result<TypeId, TypeError>) -> bool {
    match a.exprs@[expr_id.0 as int] {
        Expr::Int(..) => r matches Ok(t) && b.types@[t.0 as int] is Int,
        Expr::String(..) => r matches Ok(t) && b.types@[t.0 as int] is String,
        Expr::Unit(..) => r matches Ok(t) && b.types@[t.0 as int] is Unit,
        Expr::Var(i, name, span) => i.0 >= scope ==> (r matches Err(RichTypeError::UnboundVariable(info)) && info.name == name && info.span == span),
        Expr::GlobalVar(_, name, span) => crate::pools::assoc_index(a.globals@, name) == -1
            ==> (r matches Err(RichTypeError::UnboundVariable(info)) && info.name == name && info.span == span),
        Expr::Lambda(..) => r matches Ok(t) ==> b.types@[t.0 as int] is Arrow,
        Expr::Call(f, _, _) => is_literal(a.exprs@[f.0 as int]) ==> r is Err,
        Expr::Construct(name, _, span) => crate::pools::assoc_index(a.constructors@, name) == -1
            ==> (r matches Err(RichTypeError::UnknownConstructor { name: n, span: s, .. }) && n == name && s == span),
        Expr::Extend(_, start, len, _) => r matches Ok(t) ==> b.types@[t.0 as int] is Row
            && extension_row(a, b, start.0 as int, len as int, t),
        Expr::Ffi(_, ann, arg, _) => ann is Some && arg is None ==> r == Ok::<TypeId, TypeError>(ann.unwrap()),
        _ => true,
    }
}

} // verus!

verus! {

impl PooledTypingContext {
    fn infer_lambda(
        &mut self,
        pools: &mut Pools,
        expr_id: ExprId,
        body_id: ExprId,
        span: SpanId,
        protected_vars: &mut Vec<TypeVarId>,
    ) -> (r: Result<TypeId, TypeError>)
        requires
            old(pools).wf(),
            old(self).wf_in(old(pools)),
            body_id.0 < expr_id.0,
            old(pools).valid_expr(expr_id),
        ensures
            old(self).infer_post(final(self), old(pools), final(pools), r),
            r matches Ok(t) ==> final(pools).types@[t.0 as int] is Arrow,
            final(protected_vars)@ == old(protected_vars)@,
            surely_fails(old(pools).exprs@, body_id.0 as int) ==> r is Err,
        decreases expr_id.0, 1nat,
    {
        let span = pools.existing_span(span);
        let param_span = pools.span_provenance(span);
        let param_type = match Self::fresh(pools, param_span) {
            Ok(t) => t,
            Err(e) => return Err(e),
        };
        let param_scheme = TypeScheme::new(Vec::new(), param_type);
        let old_len = self.type_schemes.len();
        let ghost schemes0 = self.type_schemes@;
        self.extend_scheme(param_scheme);
        let body_type = match self.infer_type_fcp(pools, body_id, protected_vars) {
            Ok(t) => t,
            Err(e) => return Err(e),
        };
        self.type_schemes.truncate(old_len);
        assert(self.type_schemes@ =~= schemes0);
        let final_param_type = self.apply_substitutions(pools, param_type);
        let final_body_type = self.apply_substitutions(pools, body_type);
        let t = pools.type_arrow_span(final_param_type, final_body_type, span);
        Ok(t)
    }

    fn infer_let(
        &mut self,
        pools: &mut Pools,
        expr_id: ExprId,
        value_id: ExprId,
        body_id: ExprId,
        protected_vars: &mut Vec<TypeVarId>,
    ) -> (r: Result<TypeId, TypeError>)
        requires
            old(pools).wf(),
            old(self).wf_in(old(pools)),
            value_id.0 < expr_id.0,
            body_id.0 < expr_id.0,
            old(pools).valid_expr(expr_id),
        ensures
            old(self).infer_post(final(self), old(pools), final(pools), r),
            final(protected_vars)@ == old(protected_vars)@,
            surely_fails(old(pools).exprs@, value_id.0 as int) || surely_fails(old(pools).exprs@, body_id.0 as int) ==> r is Err,
        decreases expr_id.0, 1nat,
    {
        let value_type = match self.infer_type_fcp(pools, value_id, protected_vars) {
            Ok(t) => t,
            Err(e) => return Err(e),
        };
        let env_vars = self.get_env_vars(pools);
        let value_scheme = TypeScheme::generalize(pools, value_type, &env_vars);
        let old_len = self.type_schemes.len();
        let ghost schemes0 = self.type_schemes@;
        self.extend_scheme(value_scheme);
        let body_type = match self.infer_type(pools, body_id) {
            Ok(t) => t,
            Err(e) => return Err(e),
        };
        self.type_schemes.truncate(old_len);
        assert(self.type_schemes@ =~= schemes0);
        Ok(body_type)
    }

    fn infer_call(
        &mut self,
        pools: &mut Pools,
        expr_id: ExprId,
        func_id: ExprId,
        arg_id: ExprId,
        span: SpanId,
        protected_vars: &mut Vec<TypeVarId>,
    ) -> (r: Result<TypeId, TypeError>)
        requires
            old(pools).wf(),
            old(self).wf_in(old(pools)),
            func_id.0 < expr_id.0,
            arg_id.0 < expr_id.0,
            old(pools).valid_expr(expr_id),
        ensures
            old(self).infer_post(final(self), old(pools), final(pools), r),
            final(protected_vars)@ == old(protected_vars)@,
            is_literal(old(pools).exprs@[func_id.0 as int]) ==> r is Err,
            surely_fails(old(pools).exprs@, func_id.0 as int) || surely_fails(old(pools).exprs@, arg_id.0 as int) ==> r is Err,
        decreases expr_id.0, 1nat,
    {
        let func_type = match self.infer_type_fcp(pools, func_id, protected_vars) {
            Ok(t) => t,
            Err(e) => return Err(e),
        };
        let ghost pf = *pools;
        let arg_type = match self.infer_type_fcp(pools, arg_id, protected_vars) {
            Ok(t) => t,
            Err(e) => return Err(e),
        };
        let span = pools.existing_span(span);
        let result_span = pools.span_provenance(span);
        let result_type = match Self::fresh(pools, result_span) {
            Ok(t) => t,
            Err(e) => return Err(e),
        };
        let func_span = pools.span_merged(span, result_span);
        let expected_func_type = pools.type_arrow_span(arg_type, result_type, func_span);
        proof {
            if is_literal(old(pools).exprs@[func_id.0 as int]) {
                assert(pools.types@[func_type.0 as int] == pf.types@[func_type.0 as int]);
                assert(arrow_clash(pools.types@, func_type.0 as int, pools.types@, expected_func_type.0 as int, 0));
                assert(types_clash(pools.types@, func_type.0 as int, pools.types@, expected_func_type.0 as int, UNIFY_DEPTH as int));
            }
        }
        match self.unify(pools, func_type, expected_func_type, protected_vars, span, func_span) {
            Ok(()) => {},
            Err(e) => return Err(e),
        }
        let t = self.apply_substitutions(pools, result_type);
        Ok(t)
    }
}

} // verus!

verus! {

impl PooledTypingContext {
    /// The type variables of all schemes in scope, each once.
    pub fn get_env_vars(&self, pools: &Pools) -> (r: Vec<TypeVarId>)
        requires
            pools.wf(),
            self.wf_in(pools),
        ensures
            distinct_vars(r@),
            forall|v: usize| #[trigger] has_var(r@, v) <==> self.env_mentions(pools, v),
    {
        let mut vars: Vec<TypeVarId> = Vec::new();
        let mut i: usize = 0;
        while i < self.type_schemes.len()
            invariant
                i <= self.type_schemes@.len(),
                pools.wf(),
                self.wf_in(pools),
                distinct_vars(vars@),
                forall|v: usize| #[trigger] has_var(vars@, v) <==> exists|j: int|
                    0 <= j < i && var_occurs(pools, self.type_schemes@[j].ty.0 as int, v),
            decreases self.type_schemes@.len() - i,
        {
            let scheme_vars = pools.type_free_vars(self.type_schemes[i].ty);
            let ghost before = vars@;
            let mut k: usize = 0;
            while k < scheme_vars.len()
                invariant
                    k <= scheme_vars@.len(),
                    distinct_vars(vars@),
                    forall|v: usize| #[trigger] has_var(vars@, v) <==> (has_var(before, v) || exists|m: int|
                        0 <= m < k && scheme_vars@[m].0 == v),
                decreases scheme_vars@.len() - k,
            {
                let v = scheme_vars[k];
                let ghost mid = vars@;
                if !contains_var(&vars, v.0) {
                    vars.push(v);
                }
                proof {
                    assert forall|x: usize| #[trigger] has_var(vars@, x) <==> (has_var(before, x) || exists|m: int|
                        0 <= m < k + 1 && scheme_vars@[m].0 == x) by {
                        if has_var(vars@, x) {
                            let q = choose|q: int| 0 <= q < vars@.len() && vars@[q].0 == x;
                            if q < mid.len() {
                                assert(mid[q] == vars@[q]);
                                assert(has_var(mid, x));
                            } else {
                                assert(scheme_vars@[k as int].0 == x);
                            }
                        }
                        if has_var(mid, x) {
                            let q = choose|q: int| 0 <= q < mid.len() && mid[q].0 == x;
                            assert(vars@[q] == mid[q]);
                        }
                        if exists|m: int| 0 <= m < k + 1 && scheme_vars@[m].0 == x {
                            let m = choose|m: int| 0 <= m < k + 1 && scheme_vars@[m].0 == x;
                            if m == k && !has_var(mid, x) {
                                assert(vars@[vars@.len() - 1].0 == x);
                            }
                        }
                    }
                }
                k = k + 1;
            }
            proof {
                assert forall|x: usize| #[trigger] has_var(vars@, x) <==> exists|j: int|
                    0 <= j < i + 1 && var_occurs(pools, self.type_schemes@[j].ty.0 as int, x) by {
                    assert(has_var(scheme_vars@, x) == var_occurs(pools, self.type_schemes@[i as int].ty.0 as int, x));
                    if has_var(scheme_vars@, x) {
                        let m = choose|m: int| 0 <= m < scheme_vars@.len() && scheme_vars@[m].0 == x;
                    }
                    if exists|m: int| 0 <= m < scheme_vars@.len() && scheme_vars@[m].0 == x {
                        assert(has_var(scheme_vars@, x));
                    }
                    if exists|j: int| 0 <= j < i + 1 && var_occurs(pools, self.type_schemes@[j].ty.0 as int, x) {
                        let j = choose|j: int| 0 <= j < i + 1 && var_occurs(pools, self.type_schemes@[j].ty.0 as int, x);
                        if j < i {
                            assert(has_var(before, x));
                        }
                    }
                }
            }
            i = i + 1;
        }
        vars
    }

    /// Variable number `v` occurs in the type of some scheme in scope.
    pub open spec fn env_mentions(&self, pools: &Pools, v: usize) -> bool {
        exists|j: int| 0 <= j < self.type_schemes@.len() && var_occurs(pools, self.type_schemes@[j].ty.0 as int, v)
    }

    /// Generalizes `ty` over the variables that no scheme in scope mentions.
    pub fn generalize_type(&self, pools: &Pools, ty: TypeId) -> (r: TypeScheme)
        requires
            pools.wf(),
            self.wf_in(pools),
            pools.valid_type(ty),
        ensures
            r.ty == ty,
            forall|v: usize| #[trigger] has_var(r.quantified@, v) <==> (var_occurs(pools, ty.0 as int, v)
                && !self.env_mentions(pools, v)),
            forall|i: int, j: int| 0 <= i < j < r.quantified@.len() ==> r.quantified@[i].0 < r.quantified@[j].0,
    {
        let env_vars = self.get_env_vars(pools);
        let r = TypeScheme::generalize(pools, ty, &env_vars);
        proof {
            assert forall|v: usize| #[trigger] has_var(r.quantified@, v) <==> (var_occurs(pools, ty.0 as int, v)
                && !self.env_mentions(pools, v)) by {
                assert(has_var(env_vars@, v) == self.env_mentions(pools, v));
            }
        }
        r
    }

    /// Fresh variables for each of `vars`, bound in `subst`; the numbers of the fresh
    /// variables are appended to `fresh_numbers` when `keep` holds.
    fn fresh_for_vars(
        pools: &mut Pools,
        vars: &Vec<TypeVarId>,
        subst: &mut Vec<(usize, TypeId)>,
        fresh_numbers: &mut Vec<TypeVarId>,
        keep: bool,
        span: SpanId,
    ) -> (r: Result<(), TypeError>)
        requires
            old(pools).wf(),
            subst_valid(old(pools), old(subst)@),
        ensures
            final(pools).wf(),
            old(pools).only_types_grow(final(pools)),
            subst_valid(final(pools), final(subst)@),
            r matches Err(e) ==> e.types_valid(final(pools)),
            (r is Ok) == (vars@.len() == 0 || old(pools).next_type_var + vars@.len() < usize::MAX),
            r is Ok ==> final(pools).next_type_var == old(pools).next_type_var + vars@.len()
                && fresh_bound(old(pools), final(pools), vars@, old(subst)@, final(subst)@)
                && final(fresh_numbers)@ == if keep {
                    old(fresh_numbers)@ + Seq::new(vars@.len(), |k: int| TypeVarId((old(pools).next_type_var + k) as usize, None))
                } else {
                    old(fresh_numbers)@
                },
    {
        let mut i: usize = 0;
        while i < vars.len()
            invariant
                i <= vars@.len(),
                pools.wf(),
                old(pools).only_types_grow(pools),
                subst_valid(pools, subst@),
                pools.next_type_var == old(pools).next_type_var + i,
                pools.types@.len() == old(pools).types@.len() + i,
                i > 0 ==> old(pools).next_type_var + i <= usize::MAX - 1,
                fresh_bound(old(pools), pools, vars@.subrange(0, i as int), old(subst)@, subst@),
                fresh_numbers@ == if keep {
                    old(fresh_numbers)@ + Seq::new(i as nat, |k: int| TypeVarId((old(pools).next_type_var + k) as usize, None))
                } else {
                    old(fresh_numbers)@
                },
            decreases vars@.len() - i,
        {
            let ghost pb = *pools;
            let ghost sb = subst@;
            let ghost fb = fresh_numbers@;
            let ghost s0 = subst@;
            let fresh_var = match Self::fresh(pools, span) {
                Ok(t) => t,
                Err(e) => return Err(e),
            };
            subst_insert(subst, vars[i].0, fresh_var);
            proof {
                lemma_subst_put_valid(&*pools, s0, vars@[i as int].0, fresh_var);
            }
            if keep {
                match pools.types[fresh_var.0] {
                    Type::Var(var_idx, _) => {
                        fresh_numbers.push(var_idx);
                    },
                    _ => {},
                }
            }
            proof {
                let q = vars@[i as int].0;
                let vs0 = vars@.subrange(0, i as int);
                let vs1 = vars@.subrange(0, i + 1);
                assert forall|v: usize| #[trigger] crate::pools::assoc_get(subst@, v) == if exists|k: int| 0 <= k < vs1.len() && vs1[k].0 == v {
                    crate::pools::assoc_get(subst@, v)
                } else {
                    crate::pools::assoc_get(old(subst)@, v)
                } by {
                    crate::pools::lemma_assoc_put_get(sb, q, fresh_var, v);
                    if v == q {
                        assert(vs1[i as int].0 == v);
                    }
                    if v != q && !(exists|k: int| 0 <= k < vs1.len() && vs1[k].0 == v) {
                        assert(!(exists|k: int| 0 <= k < vs0.len() && vs0[k].0 == v)) by {
                            if exists|k: int| 0 <= k < vs0.len() && vs0[k].0 == v {
                                let k = choose|k: int| 0 <= k < vs0.len() && vs0[k].0 == v;
                                assert(vs1[k].0 == v);
                            }
                        }
                        assert(crate::pools::assoc_get(sb, v) == crate::pools::assoc_get(old(subst)@, v));
                    }
                }
                assert forall|v: usize| (exists|k: int| 0 <= k < vs1.len() && vs1[k].0 == v) implies #[trigger] crate::pools::assoc_get(subst@, v) is Some
                    && old(pools).types@.len() <= crate::pools::assoc_get(subst@, v).unwrap().0 < pools.types@.len()
                    && pools.types@[crate::pools::assoc_get(subst@, v).unwrap().0 as int] is Var by {
                    crate::pools::lemma_assoc_put_get(sb, q, fresh_var, v);
                    if v != q {
                        let k = choose|k: int| 0 <= k < vs1.len() && vs1[k].0 == v;
                        assert(k < i);
                        assert(vs0[k].0 == v);
                        let x = crate::pools::assoc_get(sb, v).unwrap();
                        assert(pools.types@[x.0 as int] == pb.types@[x.0 as int]);
                    }
                }
                if keep {
                    assert(fresh_numbers@ =~= old(fresh_numbers)@ + Seq::new((i + 1) as nat, |k: int| TypeVarId((old(pools).next_type_var + k) as usize, None)));
                }
            }
            i = i + 1;
        }
        assert(vars@.subrange(0, vars@.len() as int) =~= vars@);
        Ok(())
    }

    fn infer_construct(
        &mut self,
        pools: &mut Pools,
        expr_id: ExprId,
        constructor: InternedString,
        arg_id: ExprId,
        span: SpanId,
        protected_vars: &mut Vec<TypeVarId>,
    ) -> (r: Result<TypeId, TypeError>)
        requires
            old(pools).wf(),
            old(self).wf_in(old(pools)),
            arg_id.0 < expr_id.0,
            old(pools).valid_expr(expr_id),
        ensures
            old(self).infer_post(final(self), old(pools), final(pools), r),
            crate::pools::assoc_index(old(pools).constructors@, constructor) == -1
                ==> (r matches Err(RichTypeError::UnknownConstructor { name: n, span: s, .. }) && n == constructor && s == span),
            final(protected_vars)@ == old(protected_vars)@,
        decreases expr_id.0, 1nat,
    {
        let constructor_type = match pools.get_constructor(&constructor) {
            Some(c) => c,
            None => return Err(RichTypeError::unknown_constructor(constructor, span)),
        };
        let mut substitutions: Vec<(usize, TypeId)> = Vec::new();
        let mut universal_fresh_vars: Vec<TypeVarId> = Vec::new();
        let mut unused: Vec<TypeVarId> = Vec::new();
        let r1 = Self::fresh_for_vars(pools, &constructor_type.outer_quantified_vars, &mut substitutions, &mut unused, false, SpanId(0));
        if let Err(e) = r1 {
            return Err(e);
        }
        let r2 = Self::fresh_for_vars(pools, &constructor_type.universal_vars, &mut substitutions, &mut universal_fresh_vars, true, SpanId(0));
        if let Err(e) = r2 {
            return Err(e);
        }
        let r3 = Self::fresh_for_vars(pools, &constructor_type.existential_vars, &mut substitutions, &mut unused, false, SpanId(0));
        if let Err(e) = r3 {
            return Err(e);
        }
        let component_type = TypeScheme::substitute_type_vars(pools, constructor_type.component_type, &substitutions);
        let result_type = TypeScheme::substitute_type_vars(pools, constructor_type.result_type, &substitutions);
        let arg_type = match self.infer_type_fcp(pools, arg_id, protected_vars) {
            Ok(t) => t,
            Err(e) => return Err(e),
        };
        let context_vars = self.get_env_vars(pools);
        let mut i: usize = 0;
        while i < universal_fresh_vars.len()
            invariant
                i <= universal_fresh_vars@.len(),
                pools.wf(),
                old(pools).keeps_program(pools),
                self.wf_in(pools),
                crate::pools::assoc_index(old(pools).constructors@, constructor) != -1,
                protected_vars@ == old(protected_vars)@,
            decreases universal_fresh_vars@.len() - i,
        {
            let universal_var = universal_fresh_vars[i];
            if contains_var(&context_vars, universal_var.0) {
                let context = chars_to_string(&str_to_chars("FCP type instantiation"));
                return Err(RichTypeError::universal_variable_escape(universal_var, span, context));
            }
            i = i + 1;
        }
        let mut extended_protected = crate::pools::copy_vars(protected_vars);
        let mut j: usize = 0;
        while j < universal_fresh_vars.len()
            invariant
                j <= universal_fresh_vars@.len(),
            decreases universal_fresh_vars@.len() - j,
        {
            extended_protected.push(universal_fresh_vars[j]);
            j = j + 1;
        }
        match self.unify(pools, arg_type, component_type, &extended_protected, span, span) {
            Ok(()) => {},
            Err(e) => return Err(e),
        }
        let t = self.apply_substitutions(pools, result_type);
        Ok(t)
    }

    fn infer_record(
        &mut self,
        pools: &mut Pools,
        expr_id: ExprId,
        start: usize,
        len: usize,
        span: SpanId,
        protected_vars: &mut Vec<TypeVarId>,
    ) -> (r: Result<TypeId, TypeError>)
        requires
            old(pools).wf(),
            old(self).wf_in(old(pools)),
            old(pools).fields_below(start as int, len as int, expr_id.0 as int),
            old(pools).valid_expr(expr_id),
        ensures
            old(self).infer_post(final(self), old(pools), final(pools), r),
            r matches Ok(t) ==> final(pools).types@[t.0 as int] is Row,
            final(protected_vars)@ == old(protected_vars)@,
        decreases expr_id.0, 1nat,
    {
        let row_fields = match self.infer_fields(pools, expr_id, start, len, protected_vars) {
            Ok(f) => f,
            Err(e) => return Err(e),
        };
        let empty_row = pools.type_empty_row();
        let row_type = pools.type_row_span(row_fields.as_slice(), empty_row, span);
        let t = self.apply_substitutions(pools, row_type);
        Ok(t)
    }

    /// The row fields of the record fields `start..start+len`, each typed in turn.
    fn infer_fields(
        &mut self,
        pools: &mut Pools,
        expr_id: ExprId,
        start: usize,
        len: usize,
        protected_vars: &mut Vec<TypeVarId>,
    ) -> (r: Result<Vec<RowField>, TypeError>)
        requires
            old(pools).wf(),
            old(self).wf_in(old(pools)),
            old(pools).fields_below(start as int, len as int, expr_id.0 as int),
            old(pools).valid_expr(expr_id),
        ensures
            final(pools).wf(),
            old(pools).keeps_program(final(pools)),
            final(self).wf_in(final(pools)),
            r matches Ok(f) ==> final(pools).fields_valid(f@) && f@.len() == len
                && final(self).type_schemes@ == old(self).type_schemes@,
            r matches Ok(f) ==> forall|k: int| 0 <= k < len ==> (#[trigger] f@[k]).name == old(pools).record_fields@[start + k].name
                && literal_typed(old(pools).exprs@[old(pools).record_fields@[start + k].expr.0 as int], final(pools).types@[f@[k].field_type.0 as int]),
            r matches Err(e) ==> e.types_valid(final(pools)),
            final(protected_vars)@ == old(protected_vars)@,
        decreases expr_id.0, 0nat,
    {
        let record_fields = pools.get_record_fields(start, len);
        let mut row_fields: Vec<RowField> = Vec::new();
        let mut i: usize = 0;
        while i < record_fields.len()
            invariant
                i <= record_fields@.len(),
                record_fields@ == old(pools).record_fields@.subrange(start as int, start + len),
                old(pools).fields_below(start as int, len as int, expr_id.0 as int),
                old(pools).valid_expr(expr_id),
                pools.wf(),
                old(pools).keeps_program(pools),
                self.wf_in(pools),
                self.type_schemes@ == old(self).type_schemes@,
                pools.fields_valid(row_fields@),
                row_fields@.len() == i,
                protected_vars@ == old(protected_vars)@,
                forall|k: int| 0 <= k < i ==> (#[trigger] row_fields@[k]).name == old(pools).record_fields@[start + k].name
                    && literal_typed(old(pools).exprs@[old(pools).record_fields@[start + k].expr.0 as int], pools.types@[row_fields@[k].field_type.0 as int]),
            decreases record_fields@.len() - i,
        {
            assert(record_fields@[i as int] == old(pools).record_fields@[start + i]);
            let field = record_fields[i];
            let field_type = match self.infer_type_fcp(pools, field.expr, protected_vars) {
                Ok(t) => t,
                Err(e) => return Err(e),
            };
            let ghost before = row_fields@;
            row_fields.push(RowField { name: field.name, field_type });
            proof {
                assert forall|k: int| 0 <= k < i + 1 implies (#[trigger] row_fields@[k]).name == old(pools).record_fields@[start + k].name
                    && literal_typed(old(pools).exprs@[old(pools).record_fields@[start + k].expr.0 as int], pools.types@[row_fields@[k].field_type.0 as int]) by {
                    if k < i {
                        assert(row_fields@[k] == before[k]);
                    }
                }
            }
            i = i + 1;
        }
        Ok(row_fields)
    }

    fn infer_project(
        &mut self,
        pools: &mut Pools,
        expr_id: ExprId,
        record_id: ExprId,
        field_name: InternedString,
        span: SpanId,
        protected_vars: &mut Vec<TypeVarId>,
    ) -> (r: Result<TypeId, TypeError>)
        requires
            old(pools).wf(),
            old(self).wf_in(old(pools)),
            record_id.0 < expr_id.0,
            old(pools).valid_expr(expr_id),
        ensures
            old(self).infer_post(final(self), old(pools), final(pools), r),
            final(protected_vars)@ == old(protected_vars)@,
            surely_fails(old(pools).exprs@, record_id.0 as int) ==> r is Err,
        decreases expr_id.0, 1nat,
    {
        let record_type = match self.infer_type_fcp(pools, record_id, protected_vars) {
            Ok(t) => t,
            Err(e) => return Err(e),
        };
        let field_type = match Self::fresh(pools, span) {
            Ok(t) => t,
            Err(e) => return Err(e),
        };
        let rest_type = match Self::fresh(pools, span) {
            Ok(t) => t,
            Err(e) => return Err(e),
        };
        let mut expected: Vec<RowField> = Vec::new();
        expected.push(RowField { name: field_name, field_type });
        let expected_record_type = pools.type_row_span(expected.as_slice(), rest_type, span);
        match self.unify(pools, record_type, expected_record_type, protected_vars, span, span) {
            Ok(()) => {},
            Err(e) => return Err(e),
        }
        let t = self.apply_substitutions(pools, field_type);
        Ok(t)
    }

    fn infer_extend(
        &mut self,
        pools: &mut Pools,
        expr_id: ExprId,
        record_id: ExprId,
        start: usize,
        len: usize,
        span: SpanId,
        protected_vars: &mut Vec<TypeVarId>,
    ) -> (r: Result<TypeId, TypeError>)
        requires
            old(pools).wf(),
            old(self).wf_in(old(pools)),
            record_id.0 < expr_id.0,
            old(pools).fields_below(start as int, len as int, expr_id.0 as int),
            old(pools).valid_expr(expr_id),
        ensures
            old(self).infer_post(final(self), old(pools), final(pools), r),
            r matches Ok(t) ==> final(pools).types@[t.0 as int] is Row,
            r matches Ok(t) ==> extension_row(old(pools), final(pools), start as int, len as int, t),
            final(protected_vars)@ == old(protected_vars)@,
            surely_fails(old(pools).exprs@, record_id.0 as int) ==> r is Err,
        decreases expr_id.0, 1nat,
    {
        let record_type = match self.infer_type_fcp(pools, record_id, protected_vars) {
            Ok(t) => t,
            Err(e) => return Err(e),
        };
        let row_fields = match self.infer_fields(pools, expr_id, start, len, protected_vars) {
            Ok(f) => f,
            Err(e) => return Err(e),
        };
        let ghost p1 = *pools;
        let rest_row_ty = match Self::fresh(pools, span) {
            Ok(t) => t,
            Err(e) => return Err(e),
        };
        let ghost p2 = *pools;
        match self.unify(pools, record_type, rest_row_ty, protected_vars, span, span) {
            Ok(()) => {},
            Err(e) => return Err(e),
        }
        let ghost p3 = *pools;
        let extension_row = pools.type_row_span(row_fields.as_slice(), rest_row_ty, span);
        proof {
            let fid = crate::types::FieldId(p3.row_fields@.len() as usize);
            assert(p3.row_fields.len() == p3.row_fields@.len());
            assert(fid.0 == p3.row_fields@.len());
            let s0 = fid.0 as int;
            lemma_prefix_trans(p1.types@, p2.types@, p3.types@);
            assert(p3.types@[rest_row_ty.0 as int] is Var);
            assert forall|k: int| 0 <= k < len implies (#[trigger] pools.row_fields@[s0 + k]).name == old(pools).record_fields@[start + k].name
                && literal_typed(old(pools).exprs@[old(pools).record_fields@[start + k].expr.0 as int], pools.types@[pools.row_fields@[s0 + k].field_type.0 as int]) by {
                assert(pools.row_fields@[s0 + k] == row_fields@[k]);
                assert(pools.types@[row_fields@[k].field_type.0 as int] == p3.types@[row_fields@[k].field_type.0 as int]);
                assert(p3.types@[row_fields@[k].field_type.0 as int] == p1.types@[row_fields@[k].field_type.0 as int]);
            }
            assert(pools.types@[rest_row_ty.0 as int] == p3.types@[rest_row_ty.0 as int]);
            assert(p1.record_fields == old(pools).record_fields);
            assert(p1.exprs == old(pools).exprs);
            assert(row_fields@.len() == len);
            assert(pools.types@[extension_row.0 as int] == Type::Row(fid, len, rest_row_ty, span));
        }
        Ok(extension_row)
    }
}

} // verus!

verus! {

/// A pattern that matches every value.
/// A type node whose head resolving keeps: neither a variable nor a variable applied.
pub open spec fn settled_head(t: Type) -> bool {
    !(t is Var) && !(t is TypeApp)
}

/// Every constructor's result type has a settled head.
pub open spec fn constructors_settled(p: &Pools) -> bool {
    forall|c: int| 0 <= c < p.constructors@.len() ==> #[trigger] settled_head(p.types@[p.constructors@[c].1.result_type.0 as int])
}

/// A constructor with result type `t` builds values of the data type `name`.
pub open spec fn data_constructor_of(p: &Pools, t: TypeId, name: InternedString) -> bool {
    p.types@[t.0 as int] matches Type::DataType(n, _, _, _) && n == name
}

/// Some pattern is constructor `name` applied.
pub open spec fn covered_by(patterns: Seq<Pattern>, name: InternedString) -> bool {
    exists|q: int| 0 <= q < patterns.len() && (#[trigger] patterns[q] matches Pattern::Constructor(n, _, _, _) && n == name)
}

pub open spec fn is_catch_all(p: Pattern) -> bool {
    p is Variable || p is Wildcard
}

impl PooledTypingContext {
    fn infer_match(
        &mut self,
        pools: &mut Pools,
        expr_id: ExprId,
        scrutinee: ExprId,
        arms: MatchArms,
        span: SpanId,
        protected_vars: &mut Vec<TypeVarId>,
    ) -> (r: Result<TypeId, TypeError>)
        requires
            old(pools).wf(),
            old(self).wf_in(old(pools)),
            scrutinee.0 < expr_id.0,
            old(pools).arms_below(arms, expr_id.0 as int),
            old(pools).valid_expr(expr_id),
        ensures
            old(self).infer_post(final(self), old(pools), final(pools), r),
            final(protected_vars)@ == old(protected_vars)@,
            surely_fails(old(pools).exprs@, scrutinee.0 as int) ==> r is Err,
        decreases expr_id.0, 1nat,
    {
        let expr_type = match self.infer_type_fcp(pools, scrutinee, protected_vars) {
            Ok(t) => t,
            Err(e) => return Err(e),
        };
        let result_type = match Self::fresh(pools, SpanId(0)) {
            Ok(t) => t,
            Err(e) => return Err(e),
        };
        let mut patterns: Vec<Pattern> = Vec::new();
        let mut i: usize = 0;
        while i < arms.length
            invariant
                i <= arms.length,
                old(pools).arms_below(arms, expr_id.0 as int),
                old(pools).valid_expr(expr_id),
                pools.wf(),
                old(pools).keeps_program(pools),
                self.wf_in(pools),
                self.type_schemes@ == old(self).type_schemes@,
                pools.valid_type(expr_type),
                pools.valid_type(result_type),
                protected_vars@ == old(protected_vars)@,
            decreases arms.length - i,
        {
            let plen = pools.patterns.len();
            assert(arms.start_id.0 + i < plen);
            let case = pools.get_pattern_case(PatternId(arms.start_id.0 + i));
            assert(pools.patterns@[arms.start_id.0 + i] == old(pools).patterns@[arms.start_id.0 + i]);
            assert(pools.pattern_ok(case.pattern));
            patterns.push(case.pattern);
            let mut arm_context = self.copy();
            let (pattern_type, existential_vars) = match arm_context.infer_pattern_type_fcp(pools, case.pattern, expr_type, protected_vars) {
                Ok(p) => p,
                Err(e) => return Err(e),
            };
            let mut extended_protected = crate::pools::copy_vars(protected_vars);
            let mut k: usize = 0;
            while k < existential_vars.len()
                invariant
                    k <= existential_vars@.len(),
                decreases existential_vars@.len() - k,
            {
                extended_protected.push(existential_vars[k]);
                k = k + 1;
            }
            let body_type = match arm_context.infer_type_fcp(pools, case.body, &mut extended_protected) {
                Ok(t) => t,
                Err(e) => return Err(e),
            };
            match arm_context.unify(pools, pattern_type, expr_type, protected_vars, span, span) {
                Ok(()) => {},
                Err(e) => return Err(e),
            }
            match arm_context.unify(pools, body_type, result_type, protected_vars, span, span) {
                Ok(()) => {},
                Err(e) => return Err(e),
            }
            self.merge_substitutions(&arm_context.substitutions, pools);
            i = i + 1;
        }
        match self.check_exhaustiveness(pools, expr_type, patterns.as_slice(), span) {
            Ok(()) => {},
            Err(e) => return Err(e),
        }
        let t = self.apply_substitutions(pools, result_type);
        Ok(t)
    }

    /// Fails when the scrutinee is a data type, no pattern matches everything, and some
    /// constructor of that data type has no pattern.
    fn check_exhaustiveness(
        &self,
        pools: &mut Pools,
        scrutinee_type: TypeId,
        patterns: &[Pattern],
        span: SpanId,
    ) -> (r: Result<(), TypeError>)
        requires
            old(pools).wf(),
            self.wf_in(old(pools)),
            old(pools).valid_type(scrutinee_type),
        ensures
            final(pools).wf(),
            old(pools).only_types_grow(final(pools)),
            (exists|k: int| 0 <= k < patterns@.len() && is_catch_all(#[trigger] patterns@[k])) ==> r is Ok,
            r matches Err(e) ==> e.types_valid(final(pools)) && (e matches RichTypeError::NonExhaustivePatterns(info)
                && info.missing_patterns@.len() > 0 && info.scrutinee_type == scrutinee_type && info.match_span == span),
            settled_head(old(pools).types@[scrutinee_type.0 as int]) && !(old(pools).types@[scrutinee_type.0 as int] is DataType) ==> r is Ok,
            old(pools).types@[scrutinee_type.0 as int] matches Type::DataType(name, _, _, _) ==> (!(exists|k: int|
                0 <= k < patterns@.len() && is_catch_all(#[trigger] patterns@[k])) && constructors_settled(old(pools))
                ==> (r is Err <==> exists|c: int|
                0 <= c < old(pools).constructors@.len() && #[trigger] data_constructor_of(
                    old(pools),
                    old(pools).constructors@[c].1.result_type,
                    name,
                ) && !covered_by(patterns@, old(pools).constructors@[c].0))),
    {
        let ghost p0 = *pools;
        let actual_type = self.apply_substitutions(pools, scrutinee_type);
        let data_type_name = match pools.types[actual_type.0] {
            Type::DataType(name, _, _, _) => name,
            _ => return Ok(()),
        };
        let mut p: usize = 0;
        while p < patterns.len()
            invariant
                p <= patterns@.len(),
                forall|k: int| 0 <= k < p ==> !is_catch_all(#[trigger] patterns@[k]),
                pools.wf(),
                old(pools).only_types_grow(pools),
            decreases patterns@.len() - p,
        {
            match patterns[p] {
                Pattern::Variable(_, _, _) | Pattern::Wildcard(_) => {
                    return Ok(());
                },
                _ => {},
            }
            p = p + 1;
        }
        let ghost settled = constructors_settled(&p0);
        let mut required: Vec<InternedString> = Vec::new();
        let mut c: usize = 0;
        while c < pools.constructors.len()
            invariant
                c <= pools.constructors@.len(),
                pools.wf(),
                old(pools).only_types_grow(pools),
                p0 == *old(pools),
                p0.wf(),
                settled == constructors_settled(&p0),
                pools.constructors@ == p0.constructors@,
                self.wf_in(pools),
                settled ==> forall|nm: InternedString| #[trigger] required@.contains(nm) <==> exists|c2: int|
                    0 <= c2 < c && p0.constructors@[c2].0 == nm && data_constructor_of(&p0, p0.constructors@[c2].1.result_type, data_type_name),
            decreases pools.constructors@.len() - c,
        {
            let constructor_name = pools.constructors[c].0;
            let result_type = pools.constructors[c].1.result_type;
            let ghost before = *pools;
            let ghost req0 = required@;
            proof {
                assert(p0.tables_wf());
                assert(p0.constructors@[c as int].1.result_type == result_type);
                assert(result_type.0 < p0.types@.len());
                assert(p0.types@[result_type.0 as int] == pools.types@[result_type.0 as int]);
            }
            let resolved = self.apply_substitutions(pools, result_type);
            let mut is_ctor = false;
            match pools.types[resolved.0] {
                Type::DataType(result_data_type, _, _, _) => {
                    if result_data_type == data_type_name && !contains_name(&required, constructor_name) {
                        required.push(constructor_name);
                    }
                    is_ctor = result_data_type == data_type_name;
                },
                _ => {},
            }
            proof {
                if settled {
                    assert(settled_head(p0.types@[p0.constructors@[c as int].1.result_type.0 as int]));
                    assert(is_ctor == data_constructor_of(&p0, result_type, data_type_name));
                    assert forall|nm: InternedString| #[trigger] required@.contains(nm) <==> exists|c2: int|
                        0 <= c2 < c + 1 && p0.constructors@[c2].0 == nm && data_constructor_of(&p0, p0.constructors@[c2].1.result_type, data_type_name) by {
                        if required@.contains(nm) && !req0.contains(nm) {
                            assert(nm == constructor_name);
                            assert(p0.constructors@[c as int].0 == nm);
                        }
                        if req0.contains(nm) {
                            assert(required@.contains(nm)) by {
                                let q = choose|q: int| 0 <= q < req0.len() && req0[q] == nm;
                                assert(required@[q] == nm);
                            }
                        }
                        if exists|c2: int| 0 <= c2 < c + 1 && p0.constructors@[c2].0 == nm && data_constructor_of(&p0, p0.constructors@[c2].1.result_type, data_type_name) {
                            let c2 = choose|c2: int| 0 <= c2 < c + 1 && p0.constructors@[c2].0 == nm && data_constructor_of(&p0, p0.constructors@[c2].1.result_type, data_type_name);
                            if c2 == c {
                                if !req0.contains(nm) {
                                    assert(required@[required@.len() - 1] == nm);
                                }
                            }
                        }
                    }
                }
            }
            c = c + 1;
        }
        let mut missing: Vec<String> = Vec::new();
        let mut m: usize = 0;
        while m < required.len()
            invariant
                m <= required@.len(),
                missing@.len() > 0 <==> exists|m2: int| 0 <= m2 < m && !covered_by(patterns@, #[trigger] required@[m2]),
            decreases required@.len() - m,
        {
            let name = required[m];
            let mut covered = false;
            let mut q: usize = 0;
            while q < patterns.len()
                invariant
                    q <= patterns@.len(),
                    covered == exists|q2: int| 0 <= q2 < q && (#[trigger] patterns@[q2] matches Pattern::Constructor(n, _, _, _) && n == name),
                decreases patterns@.len() - q,
            {
                match patterns[q] {
                    Pattern::Constructor(constructor_name, _, _, _) => {
                        if constructor_name == name {
                            covered = true;
                        }
                    },
                    _ => {},
                }
                q = q + 1;
            }
            assert(covered == covered_by(patterns@, name));
            if !covered {
                missing.push(pools.interner.resolve(name));
            }
            m = m + 1;
        }
        proof {
            if settled && p0.types@[scrutinee_type.0 as int] is DataType {
                assert(p0.types@[scrutinee_type.0 as int] matches Type::DataType(n, _, _, _) && n == data_type_name);
                if missing@.len() > 0 {
                    let m2 = choose|m2: int| 0 <= m2 < required@.len() && !covered_by(patterns@, #[trigger] required@[m2]);
                    assert(required@.contains(required@[m2]));
                    let c2 = choose|c2: int| 0 <= c2 < p0.constructors@.len() && p0.constructors@[c2].0 == required@[m2]
                        && data_constructor_of(&p0, p0.constructors@[c2].1.result_type, data_type_name);
                    assert(data_constructor_of(&p0, p0.constructors@[c2].1.result_type, data_type_name));
                }
                if exists|c2: int| 0 <= c2 < p0.constructors@.len() && #[trigger] data_constructor_of(&p0, p0.constructors@[c2].1.result_type, data_type_name)
                    && !covered_by(patterns@, p0.constructors@[c2].0) {
                    let c2 = choose|c2: int| 0 <= c2 < p0.constructors@.len() && #[trigger] data_constructor_of(&p0, p0.constructors@[c2].1.result_type, data_type_name)
                        && !covered_by(patterns@, p0.constructors@[c2].0);
                    let nm = p0.constructors@[c2].0;
                    assert(required@.contains(nm));
                    let m2 = choose|m2: int| 0 <= m2 < required@.len() && required@[m2] == nm;
                    assert(!covered_by(patterns@, required@[m2]));
                }
            }
        }
        if missing.len() > 0 {
            return Err(RichTypeError::non_exhaustive_patterns(missing, span, scrutinee_type));
        }
        Ok(())
    }

    /// The type a pattern matches and the existential variables it opens; variable
    /// patterns bind their names in the context.
    fn infer_pattern_type_fcp(
        &mut self,
        pools: &mut Pools,
        pattern: Pattern,
        expected_type: TypeId,
        protected_vars: &Vec<TypeVarId>,
    ) -> (r: Result<(TypeId, Vec<TypeVarId>), TypeError>)
        requires
            old(pools).wf(),
            old(self).wf_in(old(pools)),
            old(pools).pattern_ok(pattern),
            old(pools).valid_type(expected_type),
        ensures
            pattern_post(*old(self), *final(self), *old(pools), *final(pools), pattern, expected_type, r),
    {
        let fuel = pools.pattern_fuel();
        self.infer_pattern_fuel(pools, pattern, expected_type, protected_vars, fuel)
    }

    fn infer_pattern_fuel(
        &mut self,
        pools: &mut Pools,
        pattern: Pattern,
        expected_type: TypeId,
        protected_vars: &Vec<TypeVarId>,
        fuel: usize,
    ) -> (r: Result<(TypeId, Vec<TypeVarId>), TypeError>)
        requires
            old(pools).wf(),
            old(self).wf_in(old(pools)),
            old(pools).pattern_ok(pattern),
            old(pools).valid_type(expected_type),
        ensures
            pattern_post(*old(self), *final(self), *old(pools), *final(pools), pattern, expected_type, r),
        decreases fuel,
    {
        match pattern {
            Pattern::Constructor(constructor_name, start_id, length, span) => {
                let constructor_type = match pools.get_constructor(&constructor_name) {
                    Some(c) => c,
                    None => return Err(RichTypeError::unknown_constructor(constructor_name, span)),
                };
                let ghost n0 = pools.next_type_var as int;
                let ghost a0 = constructor_type.outer_quantified_vars@.len() as int;
                let ghost b0 = constructor_type.universal_vars@.len() as int;
                let ghost e0 = constructor_type.existential_vars@.len() as int;
                let mut substitutions: Vec<(usize, TypeId)> = Vec::new();
                let mut existential_fresh_vars: Vec<TypeVarId> = Vec::new();
                let mut unused: Vec<TypeVarId> = Vec::new();
                let r1 = Self::fresh_for_vars(pools, &constructor_type.outer_quantified_vars, &mut substitutions, &mut unused, false, SpanId(0));
                if let Err(e) = r1 {
                    return Err(e);
                }
                let r2 = Self::fresh_for_vars(pools, &constructor_type.universal_vars, &mut substitutions, &mut unused, false, SpanId(0));
                if let Err(e) = r2 {
                    return Err(e);
                }
                let r3 = Self::fresh_for_vars(pools, &constructor_type.existential_vars, &mut substitutions, &mut existential_fresh_vars, true, SpanId(0));
                if let Err(e) = r3 {
                    return Err(e);
                }
                proof {
                    assert(existential_fresh_vars@ =~= Seq::new(e0 as nat, |k: int| TypeVarId((n0 + a0 + b0 + k) as usize, None)));
                }
                let ghost p3 = *pools;
                let result_type = TypeScheme::substitute_type_vars(pools, constructor_type.result_type, &substitutions);
                let ghost p4 = *pools;
                let component_type = TypeScheme::substitute_type_vars(pools, constructor_type.component_type, &substitutions);
                proof {
                    assert(p3.types@[constructor_type.result_type.0 as int] == old(pools).types@[constructor_type.result_type.0 as int]);
                    assert(pools.types@[result_type.0 as int] == p4.types@[result_type.0 as int]);
                }
                let ghost result_node = pools.types@[result_type.0 as int];
                if length > 0 {
                    let nested_patterns = pools.get_nested_patterns(start_id.0, length);
                    let mut current_result_type = result_type;
                    let mut i: usize = 0;
                    while i < nested_patterns.len()
                        invariant
                            i <= nested_patterns@.len(),
                            nested_patterns@ == old(pools).nested_patterns@.subrange(start_id.0 as int, start_id.0 + length),
                            start_id.0 + length <= old(pools).nested_patterns@.len(),
                            pools.wf(),
                            old(pools).only_types_grow(pools),
                            self.wf_in(pools),
                            pools.valid_type(current_result_type),
                            pools.valid_type(component_type),
                            old(pools).valid_type(expected_type),
                            self.type_schemes@.len() >= old(self).type_schemes@.len(),
                            pools.valid_type(result_type),
                            pattern matches Pattern::Constructor(cn, _, _, _) && crate::pools::assoc_index(old(pools).constructors@, cn) != -1,
                            pattern == Pattern::Constructor(constructor_name, start_id, length, span),
                            length > 0,
                        decreases nested_patterns@.len() - i,
                    {
                        let pattern_expected_type = if i == 0 {
                            component_type
                        } else {
                            proof {
                                assert(pools.type_node_ok(pools.types@[current_result_type.0 as int], current_result_type.0 as int));
                            }
                            match pools.types[current_result_type.0] {
                                Type::Arrow(arg_type, rest_type, _) => {
                                    current_result_type = rest_type;
                                    arg_type
                                },
                                _ => {
                                    return Err(RichTypeError::type_mismatch(current_result_type, expected_type, span, span, None, None, None));
                                },
                            }
                        };
                        if fuel == 0 {
                            return Err(Self::nesting_error(span));
                        }
                        assert(nested_patterns@[i as int] == old(pools).nested_patterns@[start_id.0 + i]);
                        let nested = match self.infer_pattern_fuel(pools, nested_patterns[i], pattern_expected_type, protected_vars, fuel - 1) {
                            Ok(n) => n,
                            Err(e) => return Err(e),
                        };
                        let nested_existentials = nested.1;
                        let mut k: usize = 0;
                        while k < nested_existentials.len()
                            invariant
                                k <= nested_existentials@.len(),
                            decreases nested_existentials@.len() - k,
                        {
                            existential_fresh_vars.push(nested_existentials[k]);
                            k = k + 1;
                        }
                        i = i + 1;
                    }
                }
                let mut final_type = result_type;
                let mut k: usize = 1;
                while k < length
                    invariant
                        pools.wf(),
                        pools.valid_type(final_type),
                        length == 0 ==> final_type == result_type,
                    decreases length - k,
                {
                    proof {
                        assert(pools.type_node_ok(pools.types@[final_type.0 as int], final_type.0 as int));
                    }
                    match pools.types[final_type.0] {
                        Type::Arrow(_, rest, _) => {
                            final_type = rest;
                        },
                        _ => {},
                    }
                    k = k + 1;
                }
                Ok((final_type, existential_fresh_vars))
            },
            Pattern::Variable(_, _, _) => {
                self.extend_scheme(TypeScheme::new(Vec::new(), expected_type));
                Ok((expected_type, Vec::new()))
            },
            Pattern::Wildcard(_) => Ok((expected_type, Vec::new())),
            Pattern::Int(_, span) => {
                let int_type = pools.type_int();
                match self.unify(pools, int_type, expected_type, protected_vars, span, span) {
                    Ok(()) => {},
                    Err(e) => return Err(e),
                }
                Ok((int_type, Vec::new()))
            },
            Pattern::String(_, span) => {
                let string_type = pools.type_string();
                match self.unify(pools, string_type, expected_type, protected_vars, span, span) {
                    Ok(()) => {},
                    Err(e) => return Err(e),
                }
                Ok((string_type, Vec::new()))
            },
            Pattern::Record(start, len, spread, span) => {
                let pattern_fields = pools.get_record_pattern_fields(start.0, len);
                let mut row_fields: Vec<RowField> = Vec::new();
                let mut i: usize = 0;
                while i < pattern_fields.len()
                    invariant
                        i <= pattern_fields@.len(),
                        pattern_fields@ == old(pools).record_pattern_fields@.subrange(start.0 as int, start.0 + len),
                        start.0 + len <= old(pools).record_pattern_fields@.len(),
                        pools.wf(),
                        old(pools).only_types_grow(pools),
                        self.wf_in(pools),
                        pools.fields_valid(row_fields@),
                        self.type_schemes@.len() >= old(self).type_schemes@.len(),
                        pattern is Record,
                    decreases pattern_fields@.len() - i,
                {
                    let field = pattern_fields[i];
                    assert(pattern_fields@[i as int] == old(pools).record_pattern_fields@[start.0 + i]);
                    let fresh_var = match Self::fresh(pools, SpanId(0)) {
                        Ok(t) => t,
                        Err(e) => return Err(e),
                    };
                    if fuel == 0 {
                        return Err(Self::nesting_error(span));
                    }
                    let inner = match self.infer_pattern_fuel(pools, field.pattern, fresh_var, protected_vars, fuel - 1) {
                        Ok(n) => n,
                        Err(e) => return Err(e),
                    };
                    row_fields.push(RowField { name: field.name, field_type: inner.0 });
                    i = i + 1;
                }
                let rest_type = if spread.is_some() {
                    match Self::fresh(pools, SpanId(0)) {
                        Ok(t) => t,
                        Err(e) => return Err(e),
                    }
                } else {
                    pools.type_empty_row()
                };
                let pattern_row_type = pools.type_row_span(row_fields.as_slice(), rest_type, span);
                match spread {
                    Some(spread_info) => {
                        if spread_info.name.is_some() {
                            self.extend_scheme(TypeScheme::new(Vec::new(), rest_type));
                        }
                    },
                    None => {},
                }
                Ok((pattern_row_type, Vec::new()))
            },
        }
    }

    fn nesting_error(span: SpanId) -> (r: TypeError)
        ensures
            r is CannotInfer,
    {
        let msg = chars_to_string(&str_to_chars("Pattern nesting too deep"));
        RichTypeError::type_error(msg, span)
    }
}

/// Whether `name` is among `names`.
fn contains_name(names: &Vec<InternedString>, name: InternedString) -> (r: bool)
    ensures
        r == names@.contains(name),
{
    let mut i: usize = 0;
    while i < names.len()
        invariant
            i <= names@.len(),
            forall|j: int| 0 <= j < i ==> names@[j] != name,
        decreases names@.len() - i,
    {
        if names[i] == name {
            assert(names@[i as int] == name);
            return true;
        }
        i = i + 1;
    }
    false
}

/// What pattern inference guarantees: pools and context stay valid and only types
/// are added; a wildcard or a variable matches the expected type and opens nothing;
/// an unknown constructor is reported.
pub open spec fn pattern_post(
    c0: PooledTypingContext,
    c1: PooledTypingContext,
    p0: Pools,
    p1: Pools,
    pattern: Pattern,
    expected_type: TypeId,
    r: Result<(TypeId, Vec<TypeVarId>), TypeError>,
) -> bool {
    &&& p1.wf()
    &&& p0.only_types_grow(&p1)
    &&& c1.wf_in(&p1)
    &&& c1.type_schemes@.len() >= c0.type_schemes@.len()
    &&& (r matches Ok(x) ==> p1.valid_type(x.0))
    &&& (r matches Err(e) ==> e.types_valid(&p1))
    &&& (pattern is Wildcard ==> (r matches Ok(x) && x.0 == expected_type && x.1@.len() == 0)
        && c1.type_schemes@ == c0.type_schemes@ && c1.substitutions@ == c0.substitutions@)
    &&& (pattern is Variable ==> (r matches Ok(x) && x.0 == expected_type && x.1@.len() == 0)
        && c1.type_schemes@.len() == c0.type_schemes@.len() + 1
        && c1.type_schemes@[c0.type_schemes@.len() as int].ty == expected_type
        && c1.type_schemes@[c0.type_schemes@.len() as int].quantified@.len() == 0)
    &&& match pattern {
        Pattern::Constructor(name, _, len, span) => (crate::pools::assoc_index(p0.constructors@, name) == -1
            ==> (r matches Err(RichTypeError::UnknownConstructor { name: n, span: s, .. }) && n == name && s == span))
            && (crate::pools::assoc_index(p0.constructors@, name) != -1 && len == 0
            ==> nullary_pattern_post(p0, p1, crate::pools::assoc_get(p0.constructors@, name).unwrap(), r)),
        Pattern::Int(..) => literal_pattern_post(c0, c1, p0, p1, expected_type, r, Type::Int(SpanId(0))),
        Pattern::String(..) => literal_pattern_post(c0, c1, p0, p1, expected_type, r, Type::String(SpanId(0))),
        _ => true,
    }
}

/// Fresh variables for `a`, then `b`, then `c` more variables are available after `n`.
pub open spec fn vars_fit(n: int, a: int, b: int, c: int) -> bool {
    &&& (a == 0 || n + a < usize::MAX)
    &&& (b == 0 || n + a + b < usize::MAX)
    &&& (c == 0 || n + a + b + c < usize::MAX)
}

/// A constructor pattern without arguments succeeds exactly when fresh variables remain for
/// the constructor's quantifiers; its type is the constructor's result type with them put in
/// (a data type of the same name stays one), and it opens one fresh variable for each
/// existential variable, in order.
pub open spec fn nullary_pattern_post(p0: Pools, p1: Pools, c: crate::types::ConstructorType, r: Result<(TypeId, Vec<TypeVarId>), TypeError>) -> bool {
    let n = p0.next_type_var as int;
    let a = c.outer_quantified_vars@.len() as int;
    let b = c.universal_vars@.len() as int;
    let e = c.existential_vars@.len() as int;
    &&& (r is Ok) == vars_fit(n, a, b, e)
    &&& (r matches Ok(x) ==> x.1@ == Seq::new(e as nat, |k: int| TypeVarId((n + a + b + k) as usize, None))
        && (p0.types@[c.result_type.0 as int] matches Type::DataType(dn, _, dl, _) ==> p1.types@[x.0.0 as int] matches Type::DataType(
        dn2,
        _,
        dl2,
        _,
    ) && dn2 == dn && dl2 == dl))
}

/// A literal pattern of base type `lit` matches the type `lit`: it succeeds, with no
/// new binding, when the expected type is that base type, and fails when the expected
/// type is another base type.
pub open spec fn literal_pattern_post(
    c0: PooledTypingContext,
    c1: PooledTypingContext,
    p0: Pools,
    p1: Pools,
    expected_type: TypeId,
    r: Result<(TypeId, Vec<TypeVarId>), TypeError>,
    lit: Type,
) -> bool {
    &&& r matches Ok(x) ==> same_base(p1.types@[x.0.0 as int], lit) && x.1@.len() == 0 && c1.type_schemes == c0.type_schemes
    &&& same_base(p0.types@[expected_type.0 as int], lit) ==> r is Ok && c1.substitutions == c0.substitutions
    &&& is_base(p0.types@[expected_type.0 as int]) && !same_base(p0.types@[expected_type.0 as int], lit) ==> r is Err
}

} // verus!

verus! {

/// `b` keeps the expressions, patterns, constructors and function implementations of
/// `a`; only types, spans and global schemes change.
/// Each of the first `n` names that has an implementation is bound to a global scheme.
pub open spec fn group_bound(p: &Pools, defs: Seq<InternedString>, n: int) -> bool {
    forall|m: int| 0 <= m < n && crate::pools::assoc_get(p.function_implementations@, #[trigger] defs[m]) is Some
        ==> crate::pools::assoc_get(p.globals@, defs[m]) is Some
}

/// `sc` generalizes its type over exactly the variables that occur in it and in no
/// scheme of `ctx`, in order of number.
pub open spec fn generalized(ctx: &PooledTypingContext, pools: &Pools, sc: TypeScheme) -> bool {
    &&& pools.valid_type(sc.ty)
    &&& forall|v: usize| #[trigger] has_var(sc.quantified@, v) <==> (var_occurs(pools, sc.ty.0 as int, v) && !ctx.env_mentions(pools, v))
    &&& forall|i: int, j: int| 0 <= i < j < sc.quantified@.len() ==> sc.quantified@[i].0 < sc.quantified@[j].0
}

/// A generalized scheme stays generalized as the pools grow.
pub proof fn lemma_generalized_grow(ctx: &PooledTypingContext, a: &Pools, b: &Pools, sc: TypeScheme)
    requires
        a.wf(),
        a.grows_to(b),
        ctx.wf_in(a),
        generalized(ctx, a, sc),
    ensures
        generalized(ctx, b, sc),
{
    assert forall|v: usize| #[trigger] has_var(sc.quantified@, v) <==> (var_occurs(b, sc.ty.0 as int, v) && !ctx.env_mentions(b, v)) by {
        crate::types::lemma_var_occurs_grow(a, b, sc.ty.0 as int, v);
        if ctx.env_mentions(a, v) {
            let j = choose|j: int| 0 <= j < ctx.type_schemes@.len() && var_occurs(a, ctx.type_schemes@[j].ty.0 as int, v);
            crate::types::lemma_var_occurs_grow(a, b, ctx.type_schemes@[j].ty.0 as int, v);
        }
        if ctx.env_mentions(b, v) {
            let j = choose|j: int| 0 <= j < ctx.type_schemes@.len() && var_occurs(b, ctx.type_schemes@[j].ty.0 as int, v);
            assert(ctx.type_schemes@[j].ty.0 < a.types@.len());
            crate::types::lemma_var_occurs_grow(a, b, ctx.type_schemes@[j].ty.0 as int, v);
        }
    }
}

/// Every implemented member of `defs[0..n]` has a global scheme generalized in `c` and `p`.
pub open spec fn group_generalized(c: &PooledTypingContext, p: &Pools, defs: Seq<InternedString>, n: int) -> bool {
    forall|m: int| 0 <= m < n && crate::pools::assoc_get(p.function_implementations@, #[trigger] defs[m]) is Some
        ==> (crate::pools::assoc_get(p.globals@, defs[m]) matches Some(sc) && generalized(c, p, sc))
}

/// No name of `defs` has an implementation in `fi`.
pub open spec fn nothing_implemented(fi: Seq<(InternedString, ExprId)>, defs: Seq<InternedString>) -> bool {
    forall|m: int| 0 <= m < defs.len() ==> crate::pools::assoc_get(fi, #[trigger] defs[m]) is None
}

/// Names outside `defs` keep their global binding from `a` to `b`.
pub open spec fn others_unbound(a: &Pools, b: &Pools, defs: Seq<InternedString>) -> bool {
    forall|name: InternedString| !defs.contains(name) ==> #[trigger] crate::pools::assoc_get(b.globals@, name) == crate::pools::assoc_get(a.globals@, name)
}

/// Every global bound in `a` is still bound in `b`.
pub open spec fn globals_kept(a: &Pools, b: &Pools) -> bool {
    forall|name: InternedString| #[trigger] crate::pools::assoc_get(a.globals@, name) is Some ==> crate::pools::assoc_get(b.globals@, name) is Some
}

pub open spec fn keeps_code(a: &Pools, b: &Pools) -> bool {
    &&& a.grows_to(b)
    &&& b.exprs == a.exprs
    &&& b.patterns == a.patterns
    &&& b.nested_patterns == a.nested_patterns
    &&& b.record_fields == a.record_fields
    &&& b.record_pattern_fields == a.record_pattern_fields
    &&& b.constructors == a.constructors
    &&& b.function_implementations == a.function_implementations
    &&& b.interner == a.interner
}

impl PooledTypingContext {
    /// Infers the groups in order; the first failure stops the work.
    pub fn infer_definition_groups(&mut self, pools: &mut Pools, groups: &[DefinitionGroup]) -> (r: Result<(), TypeError>)
        requires
            old(pools).wf(),
            old(self).wf_in(old(pools)),
        ensures
            final(pools).wf(),
            keeps_code(old(pools), final(pools)),
            final(self).wf_in(final(pools)),
            r matches Err(e) ==> e.types_valid(final(pools)),
            groups@.len() == 0 ==> r is Ok && *final(pools) == *old(pools),
            globals_kept(old(pools), final(pools)),
            r is Ok ==> forall|g: int| 0 <= g < groups@.len() ==> group_bound(
                final(pools),
                (#[trigger] groups@[g]).definitions@,
                groups@[g].definitions@.len() as int,
            ),
            (forall|g: int| 0 <= g < groups@.len() ==> nothing_implemented(old(pools).function_implementations@, (#[trigger] groups@[g]).definitions@))
                ==> r is Ok,
            r is Ok ==> forall|g: int| 0 <= g < groups@.len() ==> group_generalized(
                &*final(self),
                final(pools),
                (#[trigger] groups@[g]).definitions@,
                groups@[g].definitions@.len() as int,
            ),
    {
        let mut i: usize = 0;
        while i < groups.len()
            invariant
                i <= groups@.len(),
                pools.wf(),
                keeps_code(old(pools), pools),
                self.wf_in(pools),
                i == 0 ==> *pools == *old(pools),
                globals_kept(old(pools), pools),
                forall|g: int| 0 <= g < i ==> group_bound(pools, (#[trigger] groups@[g]).definitions@, groups@[g].definitions@.len() as int),
                forall|g: int| 0 <= g < i ==> group_generalized(&*self, pools, (#[trigger] groups@[g]).definitions@, groups@[g].definitions@.len() as int),
                pools.function_implementations == old(pools).function_implementations,
            decreases groups@.len() - i,
        {
            let ghost before = *pools;
            let ghost ctx_before = *self;
            match self.infer_definition_group(pools, &groups[i]) {
                Ok(()) => {},
                Err(e) => return Err(e),
            }
            proof {
                assert forall|g: int| 0 <= g < i + 1 implies group_generalized(&*self, pools, (#[trigger] groups@[g]).definitions@, groups@[g].definitions@.len() as int) by {
                    if g < i {
                        let defs = groups@[g].definitions@;
                        assert(group_generalized(&ctx_before, &before, defs, defs.len() as int));
                        assert forall|m: int| 0 <= m < defs.len() && crate::pools::assoc_get(pools.function_implementations@, #[trigger] defs[m]) is Some
                            implies (crate::pools::assoc_get(pools.globals@, defs[m]) matches Some(sc) && generalized(&*self, &*pools, sc)) by {
                            let x = defs[m];
                            assert(crate::pools::assoc_get(before.function_implementations@, x) is Some);
                            if groups@[i as int].definitions@.contains(x) {
                                let m2 = choose|m2: int| 0 <= m2 < groups@[i as int].definitions@.len() && groups@[i as int].definitions@[m2] == x;
                                assert(crate::pools::assoc_get(pools.function_implementations@, groups@[i as int].definitions@[m2]) is Some);
                            } else {
                                let sc = crate::pools::assoc_get(before.globals@, x).unwrap();
                                assert(generalized(&ctx_before, &before, sc));
                                lemma_generalized_grow(&ctx_before, &before, &*pools, sc);
                                assert(generalized(&*self, &*pools, sc));
                            }
                        }
                    }
                }

                assert forall|g: int| 0 <= g < i + 1 implies group_bound(pools, (#[trigger] groups@[g]).definitions@, groups@[g].definitions@.len() as int) by {
                    if g < i {
                        assert(group_bound(&before, groups@[g].definitions@, groups@[g].definitions@.len() as int));
                        assert forall|m: int| 0 <= m < groups@[g].definitions@.len() && crate::pools::assoc_get(pools.function_implementations@, #[trigger] groups@[g].definitions@[m]) is Some
                            implies crate::pools::assoc_get(pools.globals@, groups@[g].definitions@[m]) is Some by {
                            assert(crate::pools::assoc_get(before.globals@, groups@[g].definitions@[m]) is Some);
                        }
                    }
                }
            }
            i = i + 1;
        }
        Ok(())
    }

    /// Infers a group of definitions together: each implemented name first gets a
    /// monomorphic variable, then each body is unified with its variable, and finally
    /// each name is bound to its generalized type.
    fn infer_definition_group(&mut self, pools: &mut Pools, group: &DefinitionGroup) -> (r: Result<(), TypeError>)
        requires
            old(pools).wf(),
            old(self).wf_in(old(pools)),
        ensures
            final(pools).wf(),
            keeps_code(old(pools), final(pools)),
            final(self).wf_in(final(pools)),
            r matches Err(e) ==> e.types_valid(final(pools)),
            globals_kept(old(pools), final(pools)),
            r is Ok ==> group_bound(final(pools), group.definitions@, group.definitions@.len() as int),
            r is Ok ==> final(self).type_schemes@ == old(self).type_schemes@,
            r is Ok ==> group_generalized(&*final(self), final(pools), group.definitions@, group.definitions@.len() as int),
            others_unbound(old(pools), final(pools), group.definitions@),
            nothing_implemented(old(pools).function_implementations@, group.definitions@) ==> r is Ok,
    {
        let mut type_vars: Vec<(InternedString, TypeId)> = Vec::new();
        let protected_vars: Vec<TypeVarId> = Vec::new();
        let mut i: usize = 0;
        while i < group.definitions.len()
            invariant
                i <= group.definitions@.len(),
                pools.wf(),
                keeps_code(old(pools), pools),
                self.wf_in(pools),
                forall|k: int| 0 <= k < type_vars@.len() ==> #[trigger] type_vars@[k].1.0 < pools.types@.len(),
                globals_kept(old(pools), pools),
                forall|m: int| 0 <= m < i && crate::pools::assoc_get(pools.function_implementations@, #[trigger] group.definitions@[m]) is Some
                    ==> crate::pools::assoc_get(type_vars@, group.definitions@[m]) is Some,
                self.type_schemes@ == old(self).type_schemes@,
                others_unbound(old(pools), pools, group.definitions@),
                i <= group.definitions@.len(),
            decreases group.definitions@.len() - i,
        {
            let def_name = group.definitions[i];
            if pools.get_function_implementation(&def_name).is_some() {
                let type_var = match Self::fresh(pools, SpanId(0)) {
                    Ok(t) => t,
                    Err(e) => return Err(e),
                };
                let ghost tv0 = type_vars@;
                crate::pools::assoc_insert(&mut type_vars, def_name, type_var);
                proof {
                    let n = pools.types@.len();
                    crate::pools::lemma_assoc_put_all(tv0, def_name, type_var, |t: TypeId| t.0 < n);
                    assert forall|m: int| 0 <= m < i + 1 && crate::pools::assoc_get(pools.function_implementations@, #[trigger] group.definitions@[m]) is Some
                        implies crate::pools::assoc_get(type_vars@, group.definitions@[m]) is Some by {
                        crate::pools::lemma_assoc_put_get(tv0, def_name, type_var, group.definitions@[m]);
                    }
                }
                let scheme = TypeScheme::new(Vec::new(), type_var);
                let ghost g0 = pools.globals@;
                pools.bind_global_scheme(def_name, scheme);
                proof {
                    assert forall|name: InternedString| #[trigger] crate::pools::assoc_get(old(pools).globals@, name) is Some
                        implies crate::pools::assoc_get(pools.globals@, name) is Some by {
                        crate::pools::lemma_assoc_put_get(g0, def_name, scheme, name);
                    }
                    assert(group.definitions@[i as int] == def_name);
                    assert forall|name: InternedString| !group.definitions@.contains(name)
                        implies #[trigger] crate::pools::assoc_get(pools.globals@, name) == crate::pools::assoc_get(old(pools).globals@, name) by {
                        crate::pools::lemma_assoc_put_get(g0, def_name, scheme, name);
                    }
                }
            }
            i = i + 1;
        }
        let mut j: usize = 0;
        while j < group.definitions.len()
            invariant
                j <= group.definitions@.len(),
                pools.wf(),
                keeps_code(old(pools), pools),
                self.wf_in(pools),
                forall|k: int| 0 <= k < type_vars@.len() ==> #[trigger] type_vars@[k].1.0 < pools.types@.len(),
                globals_kept(old(pools), pools),
                forall|m: int| 0 <= m < group.definitions@.len() && crate::pools::assoc_get(pools.function_implementations@, #[trigger] group.definitions@[m]) is Some
                    ==> crate::pools::assoc_get(type_vars@, group.definitions@[m]) is Some,
                self.type_schemes@ == old(self).type_schemes@,
                others_unbound(old(pools), pools, group.definitions@),
            decreases group.definitions@.len() - j,
        {
            let def_name = group.definitions[j];
            match pools.get_function_implementation(&def_name) {
                Some(expr_id) => {
                    let inferred_type = match self.infer_type(pools, expr_id) {
                        Ok(t) => t,
                        Err(e) => return Err(e),
                    };
                    proof {
                        crate::pools::lemma_assoc_index(type_vars@, def_name);
                    }
                    match crate::pools::assoc_find(&type_vars, def_name) {
                        Some(idx) => {
                            let expected_type = type_vars[idx].1;
                            let dummy_span = pools.dummy_span();
                            match self.unify(pools, inferred_type, expected_type, &protected_vars, dummy_span, dummy_span) {
                                Ok(()) => {},
                                Err(e) => return Err(e),
                            }
                        },
                        None => {},
                    }
                },
                None => {},
            }
            j = j + 1;
        }
        let mut k: usize = 0;
        while k < group.definitions.len()
            invariant
                k <= group.definitions@.len(),
                pools.wf(),
                keeps_code(old(pools), pools),
                self.wf_in(pools),
                forall|m: int| 0 <= m < type_vars@.len() ==> #[trigger] type_vars@[m].1.0 < pools.types@.len(),
                globals_kept(old(pools), pools),
                forall|m: int| 0 <= m < group.definitions@.len() && crate::pools::assoc_get(pools.function_implementations@, #[trigger] group.definitions@[m]) is Some
                    ==> crate::pools::assoc_get(type_vars@, group.definitions@[m]) is Some,
                group_bound(pools, group.definitions@, k as int),
                self.type_schemes@ == old(self).type_schemes@,
                others_unbound(old(pools), pools, group.definitions@),
                group_generalized(&*self, pools, group.definitions@, k as int),
            decreases group.definitions@.len() - k,
        {
            let def_name = group.definitions[k];
            proof {
                crate::pools::lemma_assoc_index(type_vars@, def_name);
            }
            match crate::pools::assoc_find(&type_vars, def_name) {
                Some(idx) => {
                    let expected_type = type_vars[idx].1;
                    let ghost pa = *pools;
                    let final_type = self.apply_substitutions(pools, expected_type);
                    let scheme_out = self.generalize_type(pools, final_type);
                    let ghost g0 = pools.globals@;
                    let ghost pb = *pools;
                    pools.bind_global_scheme(def_name, scheme_out);
                    proof {
                        assert(generalized(&*self, &pb, scheme_out));
                        self.lemma_wf_grow(&pa, &pb);
                        lemma_generalized_grow(&*self, &pb, &*pools, scheme_out);
                        assert(group.definitions@[k as int] == def_name);
                        assert forall|m: int| 0 <= m < k + 1 && crate::pools::assoc_get(pools.function_implementations@, #[trigger] group.definitions@[m]) is Some
                            implies (crate::pools::assoc_get(pools.globals@, group.definitions@[m]) matches Some(sc) && generalized(&*self, &*pools, sc)) by {
                            crate::pools::lemma_assoc_put_get(g0, def_name, scheme_out, group.definitions@[m]);
                            if group.definitions@[m] != def_name {
                                let sc = crate::pools::assoc_get(pa.globals@, group.definitions@[m]).unwrap();
                                lemma_generalized_grow(&*self, &pa, &pb, sc);
                                lemma_generalized_grow(&*self, &pb, &*pools, sc);
                            }
                        }
                        assert forall|name: InternedString| !group.definitions@.contains(name)
                            implies #[trigger] crate::pools::assoc_get(pools.globals@, name) == crate::pools::assoc_get(old(pools).globals@, name) by {
                            crate::pools::lemma_assoc_put_get(g0, def_name, scheme_out, name);
                        }
                        assert forall|name: InternedString| #[trigger] crate::pools::assoc_get(old(pools).globals@, name) is Some
                            implies crate::pools::assoc_get(pools.globals@, name) is Some by {
                            crate::pools::lemma_assoc_put_get(g0, def_name, scheme_out, name);
                        }
                        assert forall|m: int| 0 <= m < k + 1 && crate::pools::assoc_get(pools.function_implementations@, #[trigger] group.definitions@[m]) is Some
                            implies crate::pools::assoc_get(pools.globals@, group.definitions@[m]) is Some by {
                            crate::pools::lemma_assoc_put_get(g0, def_name, scheme_out, group.definitions@[m]);
                        }
                    }
                },
                None => {},
            }
            k = k + 1;
        }
        Ok(())
    }

    /// Checks every implemented function that has a declared scheme against it; all
    /// failures are collected.
    pub fn verify_function_signatures(&mut self, pools: &mut Pools) -> (r: Result<(), Vec<TypeError>>)
        requires
            old(pools).wf(),
            old(self).wf_in(old(pools)),
        ensures
            final(pools).wf(),
            old(pools).keeps_program(final(pools)),
            final(self).wf_in(final(pools)),
            r matches Err(es) ==> es@.len() > 0 && forall|k: int| 0 <= k < es@.len() ==> (#[trigger] es@[k]).types_valid(final(pools)),
            (forall|k: int| 0 <= k < old(pools).function_implementations@.len() ==> crate::pools::assoc_index(
                old(pools).globals@, #[trigger] old(pools).function_implementations@[k].0) == -1) ==> r is Ok,
            (exists|k: int| 0 <= k < old(pools).function_implementations@.len() && #[trigger] literal_body_clashes(&*old(pools), k))
                ==> r is Err,
            (forall|k: int| 0 <= k < old(pools).function_implementations@.len() ==> #[trigger] literal_body_matches(&*old(pools), k))
                && final(pools).next_type_var < usize::MAX ==> r is Ok,
    {
        let mut errors: Vec<TypeError> = Vec::new();
        let protected_vars: Vec<TypeVarId> = Vec::new();
        let mut i: usize = 0;
        while i < pools.function_implementations.len()
            invariant
                i <= pools.function_implementations@.len(),
                pools.wf(),
                old(pools).keeps_program(pools),
                self.wf_in(pools),
                forall|k: int| 0 <= k < errors@.len() ==> (#[trigger] errors@[k]).types_valid(pools),
                (forall|k: int| 0 <= k < old(pools).function_implementations@.len() ==> crate::pools::assoc_index(
                    old(pools).globals@, #[trigger] old(pools).function_implementations@[k].0) == -1) ==> errors@.len() == 0,
                (exists|k: int| 0 <= k < i && #[trigger] literal_body_clashes(&*old(pools), k)) ==> errors@.len() > 0,
                (forall|k: int| 0 <= k < i ==> #[trigger] literal_body_matches(&*old(pools), k))
                    ==> errors@.len() == 0 || pools.next_type_var == usize::MAX,
                old(pools).wf(),
            decreases pools.function_implementations@.len() - i,
        {
            let function_name = pools.function_implementations[i].0;
            let impl_expr_id = pools.function_implementations[i].1;
            let ghost before = *pools;
            match pools.get_global_scheme(&function_name) {
                Some(declared_scheme) => {
                    proof {
                        if literal_body_matches(&*old(pools), i as int) {
                            assert(declared_scheme.quantified@.len() == 0);
                            assert(old(pools).exprs@[impl_expr_id.0 as int] == pools.exprs@[impl_expr_id.0 as int]);
                        }
                    }
                    if pools.next_type_var >= usize::MAX - declared_scheme.quantified.len() {
                        let msg = chars_to_string(&str_to_chars("Ran out of type variables"));
                        errors.push(RichTypeError::type_error(msg, SpanId(0)));
                    } else {
                        let ghost p_decl = *pools;
                        let declared_type = declared_scheme.instantiate(pools);
                        let ghost p_inst = *pools;
                        match self.infer_type(pools, impl_expr_id) {
                            Ok(inferred_type) => {
                                let dummy_span = pools.dummy_span();
                                let declared_span = dummy_span;
                                let inferred_span = pools.get_expr_span(impl_expr_id);
                                proof {
                                    if literal_body_clashes(&*old(pools), i as int) {
                                        let subs = choose|subs: Seq<(usize, TypeId)>| #[trigger] crate::types::fresh_binding(&p_decl, &p_inst, declared_scheme.quantified@, subs)
                                            && crate::types::substituted(&p_decl, declared_scheme.ty.0 as int, &p_inst, declared_type.0 as int, subs);
                                        let gty = crate::pools::assoc_get(old(pools).globals@, function_name).unwrap().ty;
                                        assert(declared_scheme.ty == gty);
                                        crate::pools::lemma_assoc_index(old(pools).globals@, function_name);
                                        let gi = crate::pools::assoc_index(old(pools).globals@, function_name);
                                        assert(old(pools).globals@[gi].1.ty == gty);
                                        assert(gty.0 < old(pools).types@.len());
                                        assert(p_decl.types@[gty.0 as int] == old(pools).types@[gty.0 as int]);
                                        assert(old(pools).exprs@[impl_expr_id.0 as int] == p_inst.exprs@[impl_expr_id.0 as int]);
                                        assert(pools.types@[declared_type.0 as int] == p_inst.types@[declared_type.0 as int]);
                                        let dt = pools.types@[declared_type.0 as int];
                                        let it = pools.types@[inferred_type.0 as int];
                                        assert(is_head(dt));
                                        assert(is_base(it));
                                        assert(!same_base(it, dt));
                                        assert(arrow_clash(pools.types@, inferred_type.0 as int, pools.types@, declared_type.0 as int, 0));
                                        assert(types_clash(pools.types@, inferred_type.0 as int, pools.types@, declared_type.0 as int, UNIFY_DEPTH as int));
                                    }
                                    if literal_body_matches(&*old(pools), i as int) {
                                        let subs = choose|subs: Seq<(usize, TypeId)>| #[trigger] crate::types::fresh_binding(&p_decl, &p_inst, declared_scheme.quantified@, subs)
                                            && crate::types::substituted(&p_decl, declared_scheme.ty.0 as int, &p_inst, declared_type.0 as int, subs);
                                        let gty = crate::pools::assoc_get(old(pools).globals@, function_name).unwrap().ty;
                                        assert(declared_scheme.ty == gty);
                                        crate::pools::lemma_assoc_index(old(pools).globals@, function_name);
                                        let gi = crate::pools::assoc_index(old(pools).globals@, function_name);
                                        assert(old(pools).globals@[gi].1.ty == gty);
                                        assert(gty.0 < old(pools).types@.len());
                                        assert(p_decl.types@[gty.0 as int] == old(pools).types@[gty.0 as int]);
                                        assert(old(pools).exprs@[impl_expr_id.0 as int] == p_inst.exprs@[impl_expr_id.0 as int]);
                                        assert(pools.types@[declared_type.0 as int] == p_inst.types@[declared_type.0 as int]);
                                        assert(same_base(pools.types@[inferred_type.0 as int], pools.types@[declared_type.0 as int]));
                                    }
                                }
                                let unified = self.unify(pools, inferred_type, declared_type, &protected_vars, dummy_span, dummy_span);
                                if unified.is_err() {
                                    errors.push(RichTypeError::function_signature_mismatch(
                                        function_name,
                                        declared_scheme.copy(),
                                        declared_type,
                                        inferred_type,
                                        impl_expr_id,
                                        declared_span,
                                        inferred_span,
                                    ));
                                }
                            },
                            Err(err) => {
                                errors.push(err);
                            },
                        }
                    }
                },
                None => {},
            }
            i = i + 1;
        }
        if errors.len() == 0 {
            Ok(())
        } else {
            Err(errors)
        }
    }
}

} // verus!
