//! Kinds of types: `*` for types of values, `k1 -> k2` for type constructors.
use vstd::prelude::*;

use crate::pools::{assoc_get, kind_arity, lemma_arity_grow, Kind, KindId, Pools, TypeId};
use crate::types::RowField;
use crate::text::{chars_to_string, nat_digits, push_str, push_usize};
use crate::types::Type;
use crate::InternedString;

verus! {

/// Why a type is not well kinded.
#[derive(Debug, Clone)]
pub enum KindError {
    KindMismatch { expected: KindId, actual: KindId },
    UnboundTypeConstructor(InternedString),
    ArityMismatch { constructor: InternedString, expected: usize, actual: usize },
    InfiniteKind,
    IllFormedType(TypeId),
}

/// The one-line description of a kind error (ids shown as Rust's `{:?}` shows them).
pub open spec fn kind_error_text(e: KindError) -> Seq<char> {
    match e {
        KindError::KindMismatch { expected, actual } => "Kind mismatch: expected kind KindId("@ + nat_digits(
            expected.0 as nat,
        ) + "), got KindId("@ + nat_digits(actual.0 as nat) + ")"@,
        KindError::UnboundTypeConstructor(name) => "Unbound type constructor: InternedString("@ + nat_digits(
            name.0 as nat,
        ) + ")"@,
        KindError::ArityMismatch { constructor, expected, actual } => "Type constructor InternedString("@
            + nat_digits(constructor.0 as nat) + ") expects "@ + nat_digits(expected as nat) + " arguments, got "@
            + nat_digits(actual as nat),
        KindError::InfiniteKind => "Infinite kind detected during unification"@,
        KindError::IllFormedType(type_id) => "Ill-formed type: TypeId("@ + nat_digits(type_id.0 as nat) + ")"@,
    }
}

impl KindError {
    /// A one-line description of the error.
    pub fn to_string(&self) -> (r: String)
        ensures
            r@ == kind_error_text(*self),
    {
        let mut out: Vec<char> = Vec::new();
        match self {
            KindError::KindMismatch { expected, actual } => {
                push_str(&mut out, "Kind mismatch: expected kind KindId(");
                push_usize(&mut out, expected.0);
                push_str(&mut out, "), got KindId(");
                push_usize(&mut out, actual.0);
                push_str(&mut out, ")");
            },
            KindError::UnboundTypeConstructor(name) => {
                push_str(&mut out, "Unbound type constructor: InternedString(");
                push_usize(&mut out, name.0 as usize);
                push_str(&mut out, ")");
            },
            KindError::ArityMismatch { constructor, expected, actual } => {
                push_str(&mut out, "Type constructor InternedString(");
                push_usize(&mut out, constructor.0 as usize);
                push_str(&mut out, ") expects ");
                push_usize(&mut out, *expected);
                push_str(&mut out, " arguments, got ");
                push_usize(&mut out, *actual);
            },
            KindError::InfiniteKind => {
                push_str(&mut out, "Infinite kind detected during unification");
            },
            KindError::IllFormedType(type_id) => {
                push_str(&mut out, "Ill-formed type: TypeId(");
                push_usize(&mut out, type_id.0);
                push_str(&mut out, ")");
            },
        }
        assert(out@ =~= kind_error_text(*self));
        chars_to_string(&out)
    }
}

/// Kinds `a` and `b` have the same shape.
pub open spec fn same_kind(kinds: Seq<Kind>, a: int, b: int) -> bool
    decreases a,
{
    if a == b {
        true
    } else if 0 <= a < kinds.len() && 0 <= b < kinds.len() {
        match (kinds[a], kinds[b]) {
            (Kind::Star, Kind::Star) => true,
            (Kind::Arrow(f1, t1), Kind::Arrow(f2, t2)) => if 0 <= f1.0 < a && 0 <= t1.0 < a {
                same_kind(kinds, f1.0 as int, f2.0 as int) && same_kind(kinds, t1.0 as int, t2.0 as int)
            } else {
                false
            },
            _ => false,
        }
    } else {
        false
    }
}

/// The first pair of kind nodes, walking `a` and `b` argument side first, whose shapes
/// differ (`None` when the kinds have the same shape).
pub open spec fn kind_mismatch(kinds: Seq<Kind>, a: int, b: int) -> Option<(int, int)>
    decreases a,
{
    if a == b {
        None
    } else if 0 <= a < kinds.len() && 0 <= b < kinds.len() {
        match (kinds[a], kinds[b]) {
            (Kind::Star, Kind::Star) => None,
            (Kind::Arrow(f1, t1), Kind::Arrow(f2, t2)) => if 0 <= f1.0 < a && 0 <= t1.0 < a {
                match kind_mismatch(kinds, f1.0 as int, f2.0 as int) {
                    Some(p) => Some(p),
                    None => kind_mismatch(kinds, t1.0 as int, t2.0 as int),
                }
            } else {
                Some((a, b))
            },
            _ => Some((a, b)),
        }
    } else {
        Some((a, b))
    }
}

proof fn lemma_kind_mismatch_same(kinds: Seq<Kind>, a: int, b: int)
    ensures
        (kind_mismatch(kinds, a, b) is None) == same_kind(kinds, a, b),
    decreases a,
{
    if a != b && 0 <= a < kinds.len() && 0 <= b < kinds.len() {
        match (kinds[a], kinds[b]) {
            (Kind::Arrow(f1, t1), Kind::Arrow(f2, t2)) => {
                if 0 <= f1.0 < a && 0 <= t1.0 < a {
                    lemma_kind_mismatch_same(kinds, f1.0 as int, f2.0 as int);
                    lemma_kind_mismatch_same(kinds, t1.0 as int, t2.0 as int);
                }
            },
            _ => {},
        }
    }
}

/// `b` extends `a` with kind nodes only.
pub open spec fn only_kinds_grow(a: &Pools, b: &Pools) -> bool {
    &&& a.grows_to(b)
    &&& *b == (Pools { kinds: b.kinds, ..*a })
}

/// The kind reached from kind `k` by taking the result side of `n` arrows.
pub open spec fn kind_result_after(kinds: Seq<Kind>, k: int, n: nat) -> int
    decreases n,
{
    if n == 0 {
        k
    } else if 0 <= k < kinds.len() {
        match kinds[k] {
            Kind::Arrow(_, r) => kind_result_after(kinds, r.0 as int, (n - 1) as nat),
            Kind::Star => k,
        }
    } else {
        k
    }
}

/// The kind that a constructor of kind `k` expects of its argument at position `n`
/// (`-1` where it takes no such argument).
pub open spec fn kind_param_at(kinds: Seq<Kind>, k: int, n: nat) -> int {
    let c = kind_result_after(kinds, k, n);
    if 0 <= c < kinds.len() {
        match kinds[c] {
            Kind::Arrow(f, _) => f.0 as int,
            Kind::Star => -1,
        }
    } else {
        -1
    }
}

/// A kind value is `*`.  In a kind value, `Some(None)` stands for `*` and
/// `Some(Some(k))` for the kind node `k`; `None` means "ill kinded".
pub open spec fn is_star_value(kinds: Seq<Kind>, v: Option<Option<int>>) -> bool {
    match v {
        Some(None) => true,
        Some(Some(k)) => 0 <= k < kinds.len() && kinds[k] is Star,
        None => false,
    }
}

/// A kind value has the same shape as the kind node `param`.
pub open spec fn fits_param(kinds: Seq<Kind>, v: Option<Option<int>>, param: int) -> bool {
    match v {
        Some(None) => 0 <= param < kinds.len() && kinds[param] is Star,
        Some(Some(k)) => same_kind(kinds, k, param),
        None => false,
    }
}

/// The kind of type node `t`: `*` for every type of values whose parts have kind
/// `*`; for a data type, its constructor's kind applied to the kinds of its
/// arguments, each of which must fit the parameter it is given to.
pub open spec fn kind_value(p: &Pools, t: int) -> Option<Option<int>>
    decreases t, 2int, 0int,
{
    if 0 <= t < p.types@.len() {
        match p.types@[t] {
            Type::Arrow(a, b, _) => if a.0 < t && b.0 < t && is_star_value(p.kinds@, kind_value(p, a.0 as int))
                && is_star_value(p.kinds@, kind_value(p, b.0 as int)) {
                Some(None)
            } else {
                None
            },
            Type::DataType(name, s, l, _) => match assoc_get(p.type_constructor_kinds@, name) {
                Some(ck) => if l == kind_arity(p.kinds@, ck.0 as int) && args_fit(
                    p,
                    t,
                    p.type_params@.subrange(s.0 as int, s.0 + l),
                    l as int,
                    ck.0 as int,
                ) {
                    Some(Some(kind_result_after(p.kinds@, ck.0 as int, l as nat)))
                } else {
                    None
                },
                None => None,
            },
            Type::TypeApp(_, s, l, _) => if params_star(p, t, p.type_params@.subrange(s.0 as int, s.0 + l), l as int) {
                Some(None)
            } else {
                None
            },
            Type::Row(s, l, r, _) => if fields_star(p, t, p.row_fields@.subrange(s.0 as int, s.0 + l), l as int)
                && r.0 < t && is_star_value(p.kinds@, kind_value(p, r.0 as int)) {
                Some(None)
            } else {
                None
            },
            _ => Some(None),
        }
    } else {
        None
    }
}

/// The first `n` arguments of a data type fit the parameters of constructor kind `ck`.
pub open spec fn args_fit(p: &Pools, owner: int, args: Seq<TypeId>, n: int, ck: int) -> bool
    decreases owner, 1int, n,
{
    if n <= 0 {
        true
    } else {
        &&& args_fit(p, owner, args, n - 1, ck)
        &&& args[n - 1].0 < owner
        &&& fits_param(p.kinds@, kind_value(p, args[n - 1].0 as int), kind_param_at(p.kinds@, ck, (n - 1) as nat))
    }
}

/// The first `n` of the given types have kind `*`.
pub open spec fn params_star(p: &Pools, owner: int, args: Seq<TypeId>, n: int) -> bool
    decreases owner, 1int, n,
{
    if n <= 0 {
        true
    } else {
        &&& params_star(p, owner, args, n - 1)
        &&& args[n - 1].0 < owner
        &&& is_star_value(p.kinds@, kind_value(p, args[n - 1].0 as int))
    }
}

/// The types of the first `n` of the given fields have kind `*`.
pub open spec fn fields_star(p: &Pools, owner: int, fields: Seq<RowField>, n: int) -> bool
    decreases owner, 1int, n,
{
    if n <= 0 {
        true
    } else {
        &&& fields_star(p, owner, fields, n - 1)
        &&& fields[n - 1].field_type.0 < owner
        &&& is_star_value(p.kinds@, kind_value(p, fields[n - 1].field_type.0 as int))
    }
}

/// Type node `t` is well kinded: its kind is `*`.
pub open spec fn well_kinded(p: &Pools, t: int) -> bool {
    is_star_value(p.kinds@, kind_value(p, t))
}

proof fn lemma_same_kind_star(kinds: Seq<Kind>, a: int, b: int)
    requires
        0 <= a < kinds.len(),
        0 <= b < kinds.len(),
        kinds[a] is Star || kinds[b] is Star,
    ensures
        same_kind(kinds, a, b) <==> (kinds[a] is Star && kinds[b] is Star),
{
}

/// Appending kinds keeps the shape comparison of existing kinds.
proof fn lemma_same_kind_grow(a: &Pools, b: &Pools, x: int, y: int)
    requires
        a.wf(),
        a.grows_to(b),
        0 <= x < a.kinds@.len(),
        0 <= y < a.kinds@.len(),
    ensures
        same_kind(b.kinds@, x, y) == same_kind(a.kinds@, x, y),
    decreases x,
{
    assert(b.kinds@[x] == a.kinds@[x]);
    assert(b.kinds@[y] == a.kinds@[y]);
    assert(a.kind_node_ok(a.kinds@[x], x));
    assert(a.kind_node_ok(a.kinds@[y], y));
    if x != y {
        match (a.kinds@[x], a.kinds@[y]) {
            (Kind::Arrow(f1, t1), Kind::Arrow(f2, t2)) => {
                lemma_same_kind_grow(a, b, f1.0 as int, f2.0 as int);
                lemma_same_kind_grow(a, b, t1.0 as int, t2.0 as int);
            },
            _ => {},
        }
    }
}

/// Following the result side of a well-formed kind `n` times, for `n` up to its arity.
proof fn lemma_result_after(p: &Pools, k: int, n: nat)
    requires
        p.wf(),
        0 <= k < p.kinds@.len(),
        n <= kind_arity(p.kinds@, k),
    ensures
        0 <= kind_result_after(p.kinds@, k, n) < p.kinds@.len(),
        kind_arity(p.kinds@, kind_result_after(p.kinds@, k, n)) == kind_arity(p.kinds@, k) - n,
        n < kind_arity(p.kinds@, k) ==> (p.kinds@[kind_result_after(p.kinds@, k, n)] matches Kind::Arrow(f, r)
            && kind_result_after(p.kinds@, k, n + 1) == r.0 && kind_param_at(p.kinds@, k, n) == f.0
            && f.0 < p.kinds@.len()),
    decreases n,
{
    assert(p.kind_node_ok(p.kinds@[k], k));
    if n > 0 {
        match p.kinds@[k] {
            Kind::Arrow(_, r) => {
                lemma_result_after(p, r.0 as int, (n - 1) as nat);
            },
            Kind::Star => {},
        }
    } else {
        if 0 < kind_arity(p.kinds@, k) {
            match p.kinds@[k] {
                Kind::Arrow(f, r) => {
                    assert(kind_result_after(p.kinds@, r.0 as int, 0) == r.0);
                },
                Kind::Star => {},
            }
        }
    }
}

/// Appending kinds does not change where the result side of an existing kind leads.
proof fn lemma_result_after_grow(a: &Pools, b: &Pools, k: int, n: nat)
    requires
        a.wf(),
        a.grows_to(b),
        0 <= k < a.kinds@.len(),
    ensures
        kind_result_after(b.kinds@, k, n) == kind_result_after(a.kinds@, k, n),
        0 <= kind_result_after(a.kinds@, k, n) < a.kinds@.len(),
        kind_param_at(b.kinds@, k, n) == kind_param_at(a.kinds@, k, n),
        kind_param_at(a.kinds@, k, n) < a.kinds@.len(),
    decreases n,
{
    assert(b.kinds@[k] == a.kinds@[k]);
    assert(a.kind_node_ok(a.kinds@[k], k));
    if n > 0 {
        match a.kinds@[k] {
            Kind::Arrow(_, r) => {
                lemma_result_after_grow(a, b, r.0 as int, (n - 1) as nat);
            },
            Kind::Star => {},
        }
    }
    let c = kind_result_after(a.kinds@, k, n);
    assert(b.kinds@[c] == a.kinds@[c]);
    assert(a.kind_node_ok(a.kinds@[c], c));
}

/// A kind value that names a node names an existing one.
proof fn lemma_kind_value_range(p: &Pools, t: int)
    requires
        p.wf(),
    ensures
        kind_value(p, t) matches Some(Some(k)) ==> 0 <= k < p.kinds@.len(),
{
    if 0 <= t < p.types@.len() {
        match p.types@[t] {
            Type::DataType(name, s, l, _) => {
                crate::pools::lemma_assoc_index(p.type_constructor_kinds@, name);
                match assoc_get(p.type_constructor_kinds@, name) {
                    Some(ck) => {
                        let i = crate::pools::assoc_index(p.type_constructor_kinds@, name);
                        assert(p.type_constructor_kinds@[i].1.0 < p.kinds@.len());
                        if l == kind_arity(p.kinds@, ck.0 as int) {
                            lemma_result_after(p, ck.0 as int, l as nat);
                        }
                    },
                    None => {},
                }
            },
            _ => {},
        }
    }
}

/// Appending kinds does not change the kind of an existing type.
proof fn lemma_kind_value_grow(p: &Pools, q: &Pools, t: int)
    requires
        p.wf(),
        only_kinds_grow(p, q),
    ensures
        kind_value(q, t) == kind_value(p, t),
        well_kinded(q, t) == well_kinded(p, t),
    decreases t, 2int, 0int,
{
    if 0 <= t < p.types@.len() {
        assert(p.type_node_ok(p.types@[t], t));
        match p.types@[t] {
            Type::Arrow(a, b, _) => {
                lemma_kind_value_grow(p, q, a.0 as int);
                lemma_kind_value_grow(p, q, b.0 as int);
            },
            Type::DataType(name, s, l, _) => {
                crate::pools::lemma_assoc_index(p.type_constructor_kinds@, name);
                match assoc_get(p.type_constructor_kinds@, name) {
                    Some(ck) => {
                        let i = crate::pools::assoc_index(p.type_constructor_kinds@, name);
                        assert(p.type_constructor_kinds@[i].1.0 < p.kinds@.len());
                        lemma_arity_grow(p, q, ck.0 as int);
                        lemma_result_after_grow(p, q, ck.0 as int, l as nat);
                        lemma_args_fit_grow(p, q, t, p.type_params@.subrange(s.0 as int, s.0 + l), l as int, ck.0 as int);
                    },
                    None => {},
                }
            },
            Type::TypeApp(_, s, l, _) => {
                lemma_params_star_grow(p, q, t, p.type_params@.subrange(s.0 as int, s.0 + l), l as int);
            },
            Type::Row(s, l, r, _) => {
                lemma_fields_star_grow(p, q, t, p.row_fields@.subrange(s.0 as int, s.0 + l), l as int);
                lemma_kind_value_grow(p, q, r.0 as int);
            },
            _ => {},
        }
    }
    lemma_kind_value_range(p, t);
    if let Some(Some(k)) = kind_value(p, t) {
        assert(q.kinds@[k] == p.kinds@[k]);
    }
}

proof fn lemma_args_fit_grow(p: &Pools, q: &Pools, owner: int, args: Seq<TypeId>, n: int, ck: int)
    requires
        p.wf(),
        only_kinds_grow(p, q),
        0 <= ck < p.kinds@.len(),
    ensures
        args_fit(q, owner, args, n, ck) == args_fit(p, owner, args, n, ck),
    decreases owner, 1int, n,
{
    if n > 0 {
        lemma_args_fit_grow(p, q, owner, args, n - 1, ck);
        if args[n - 1].0 < owner {
            let a = args[n - 1].0 as int;
            lemma_kind_value_grow(p, q, a);
            lemma_kind_value_range(p, a);
            lemma_result_after_grow(p, q, ck, (n - 1) as nat);
            let param = kind_param_at(p.kinds@, ck, (n - 1) as nat);
            if 0 <= param {
                assert(q.kinds@[param] == p.kinds@[param]);
                if let Some(Some(k)) = kind_value(p, a) {
                    lemma_same_kind_grow(p, q, k, param);
                }
            }
        }
    }
}

proof fn lemma_params_star_grow(p: &Pools, q: &Pools, owner: int, args: Seq<TypeId>, n: int)
    requires
        p.wf(),
        only_kinds_grow(p, q),
    ensures
        params_star(q, owner, args, n) == params_star(p, owner, args, n),
    decreases owner, 1int, n,
{
    if n > 0 {
        lemma_params_star_grow(p, q, owner, args, n - 1);
        if args[n - 1].0 < owner {
            lemma_kind_value_grow(p, q, args[n - 1].0 as int);
        }
    }
}

proof fn lemma_fields_star_grow(p: &Pools, q: &Pools, owner: int, fields: Seq<RowField>, n: int)
    requires
        p.wf(),
        only_kinds_grow(p, q),
    ensures
        fields_star(q, owner, fields, n) == fields_star(p, owner, fields, n),
    decreases owner, 1int, n,
{
    if n > 0 {
        lemma_fields_star_grow(p, q, owner, fields, n - 1);
        if fields[n - 1].field_type.0 < owner {
            lemma_kind_value_grow(p, q, fields[n - 1].field_type.0 as int);
        }
    }
}

proof fn lemma_args_fit_prefix(p: &Pools, owner: int, args: Seq<TypeId>, n: int, m: int, ck: int)
    requires
        m <= n,
        args_fit(p, owner, args, n, ck),
    ensures
        args_fit(p, owner, args, m, ck),
    decreases n - m,
{
    if m < n {
        lemma_args_fit_prefix(p, owner, args, n - 1, m, ck);
    }
}

proof fn lemma_params_star_prefix(p: &Pools, owner: int, args: Seq<TypeId>, n: int, m: int)
    requires
        m <= n,
        params_star(p, owner, args, n),
    ensures
        params_star(p, owner, args, m),
    decreases n - m,
{
    if m < n {
        lemma_params_star_prefix(p, owner, args, n - 1, m);
    }
}

proof fn lemma_fields_star_prefix(p: &Pools, owner: int, fields: Seq<RowField>, n: int, m: int)
    requires
        m <= n,
        fields_star(p, owner, fields, n),
    ensures
        fields_star(p, owner, fields, m),
    decreases n - m,
{
    if m < n {
        lemma_fields_star_prefix(p, owner, fields, n - 1, m);
    }
}

/// Infers and checks kinds of types.
pub struct KindChecker {
    kind_substitution: Vec<(KindId, KindId)>,
    _next_kind_var: usize,
}

impl KindChecker {
    /// The checker's substitution of kinds is empty.
    pub closed spec fn wf(&self) -> bool {
        self.kind_substitution@.len() == 0
    }

    pub fn new() -> (r: Self)
        ensures
            r.wf(),
    {
        Self { kind_substitution: Vec::new(), _next_kind_var: 0 }
    }

    /// The kind of a type: `*` for every type of values, and for a data type the
    /// result of applying its constructor's kind to its parameters.
    pub fn infer_kind(&mut self, pools: &mut Pools, type_id: TypeId) -> (r: Result<KindId, KindError>)
        requires
            old(self).wf(),
            old(pools).wf(),
            old(pools).valid_type(type_id),
        ensures
            final(self).wf(),
            final(pools).wf(),
            only_kinds_grow(old(pools), final(pools)),
            r is Err <==> kind_value(old(pools), type_id.0 as int) is None,
            r matches Ok(k) ==> k.0 < final(pools).kinds@.len() && match kind_value(old(pools), type_id.0 as int) {
                Some(None) => final(pools).kinds@[k.0 as int] is Star,
                Some(Some(j)) => k.0 == j,
                None => false,
            },
            old(pools).types@[type_id.0 as int] matches Type::DataType(name, _, len, _) ==> match assoc_get(
                old(pools).type_constructor_kinds@,
                name,
            ) {
                None => r matches Err(KindError::UnboundTypeConstructor(n)) && n == name,
                Some(ck) => len != kind_arity(old(pools).kinds@, ck.0 as int) ==> (r matches Err(KindError::ArityMismatch {
                    constructor,
                    expected,
                    actual,
                }) && constructor == name && expected == kind_arity(old(pools).kinds@, ck.0 as int) && actual == len),
            },
        decreases type_id.0, 1nat,
    {
        let type_copy = pools.types[type_id.0];
        let ghost p0 = *pools;
        let ghost t = type_id.0 as int;
        proof {
            assert(pools.type_node_ok(pools.types@[type_id.0 as int], type_id.0 as int));
        }
        match type_copy {
            Type::Int(_) | Type::String(_) | Type::Unit(_) | Type::Var(_, _) | Type::EmptyRow(_) => Ok(pools.kind_star()),
            Type::Arrow(from, to, _) => {
                let from_kind = match self.infer_kind(pools, from) {
                    Ok(k) => k,
                    Err(e) => return Err(e),
                };
                let ghost p1 = *pools;
                let to_kind = match self.infer_kind(pools, to) {
                    Ok(k) => k,
                    Err(e) => {
                        proof {
                            lemma_kind_value_grow(&p0, &p1, to.0 as int);
                        }
                        return Err(e);
                    },
                };
                let star = pools.kind_star();
                proof {
                    lemma_kind_value_grow(&p0, &p1, to.0 as int);
                    lemma_kind_value_range(&p0, from.0 as int);
                    lemma_kind_value_range(&p0, to.0 as int);
                    assert(pools.kinds@[from_kind.0 as int] == p1.kinds@[from_kind.0 as int]);
                    lemma_same_kind_star(pools.kinds@, from_kind.0 as int, star.0 as int);
                    lemma_same_kind_star(pools.kinds@, to_kind.0 as int, star.0 as int);
                    if let Some(Some(j)) = kind_value(&p0, from.0 as int) {
                        assert(pools.kinds@[j] == p0.kinds@[j]);
                    }
                    if let Some(Some(j)) = kind_value(&p0, to.0 as int) {
                        assert(pools.kinds@[j] == p0.kinds@[j]);
                    }
                }
                match self.unify_kinds(pools, from_kind, star) {
                    Ok(()) => {},
                    Err(e) => return Err(e),
                }
                match self.unify_kinds(pools, to_kind, star) {
                    Ok(()) => {},
                    Err(e) => return Err(e),
                }
                Ok(star)
            },
            Type::DataType(name, start, len, _) => {
                let constructor_kind = match pools.get_type_constructor_kind(&name) {
                    Some(k) => k,
                    None => return Err(KindError::UnboundTypeConstructor(name)),
                };
                let param_types = pools.get_data_type_params(start.0, len);
                let r = self.apply_constructor_kind(pools, type_id, constructor_kind, &param_types, name);
                proof {
                    lemma_kind_value_range(&p0, t);
                }
                r
            },
            Type::TypeApp(_, start, len, _) => {
                let param_types = pools.get_data_type_params(start.0, len);
                let star = pools.kind_star();
                let mut i: usize = 0;
                while i < param_types.len()
                    invariant
                        i <= param_types@.len(),
                        param_types@ == p0.type_params@.subrange(start.0 as int, start.0 + len),
                        p0.params_below(start.0 as int, len as int, t),
                        p0 == *old(pools),
                        p0.wf(),
                        self.wf(),
                        pools.wf(),
                        only_kinds_grow(&p0, pools),
                        star.0 < pools.kinds@.len(),
                        pools.kinds@[star.0 as int] is Star,
                        p0.types@[t] == type_copy,
                        type_copy matches Type::TypeApp(_, s0, l0, _) && s0 == start && l0 == len,
                        0 <= t < p0.types@.len(),
                        t == type_id.0,
                        params_star(&p0, t, param_types@, i as int),
                    decreases param_types@.len() - i,
                {
                    assert(param_types@[i as int] == p0.type_params@[start.0 + i]);
                    assert(pools.types@ == p0.types@);
                    let ghost pi = *pools;
                    let a = param_types[i];
                    proof {
                        lemma_kind_value_grow(&p0, &pi, a.0 as int);
                        lemma_kind_value_range(&p0, a.0 as int);
                    }
                    let param_kind = match self.infer_kind(pools, a) {
                        Ok(k) => k,
                        Err(e) => {
                            proof {
                                if params_star(&p0, t, param_types@, len as int) {
                                    lemma_params_star_prefix(&p0, t, param_types@, len as int, i as int + 1);
                                }
                            }
                            return Err(e);
                        },
                    };
                    proof {
                        assert(pools.kinds@[star.0 as int] == pi.kinds@[star.0 as int]);
                        lemma_same_kind_star(pools.kinds@, param_kind.0 as int, star.0 as int);
                        if let Some(Some(j)) = kind_value(&p0, a.0 as int) {
                            assert(pools.kinds@[j] == p0.kinds@[j]);
                        }
                    }
                    match self.unify_kinds(pools, param_kind, star) {
                        Ok(()) => {},
                        Err(e) => {
                            proof {
                                if params_star(&p0, t, param_types@, len as int) {
                                    lemma_params_star_prefix(&p0, t, param_types@, len as int, i as int + 1);
                                }
                            }
                            return Err(e);
                        },
                    }
                    i = i + 1;
                }
                Ok(star)
            },
            Type::Row(start, len, rest, _) => {
                let star = pools.kind_star();
                let fields = pools.get_row_fields(start.0, len);
                let mut i: usize = 0;
                while i < fields.len()
                    invariant
                        i <= fields@.len(),
                        fields@ == p0.row_fields@.subrange(start.0 as int, start.0 + len),
                        p0.row_below(start.0 as int, len as int, t),
                        p0 == *old(pools),
                        p0.wf(),
                        self.wf(),
                        pools.wf(),
                        only_kinds_grow(&p0, pools),
                        star.0 < pools.kinds@.len(),
                        pools.kinds@[star.0 as int] is Star,
                        p0.types@[t] == type_copy,
                        type_copy matches Type::Row(s0, l0, r0, _) && s0 == start && l0 == len && r0 == rest,
                        0 <= t < p0.types@.len(),
                        t == type_id.0,
                        fields_star(&p0, t, fields@, i as int),
                    decreases fields@.len() - i,
                {
                    assert(fields@[i as int] == p0.row_fields@[start.0 + i]);
                    assert(pools.types@ == p0.types@);
                    let ghost pi = *pools;
                    let a = fields[i].field_type;
                    proof {
                        lemma_kind_value_grow(&p0, &pi, a.0 as int);
                        lemma_kind_value_range(&p0, a.0 as int);
                    }
                    let field_kind = match self.infer_kind(pools, a) {
                        Ok(k) => k,
                        Err(e) => {
                            proof {
                                if fields_star(&p0, t, fields@, len as int) {
                                    lemma_fields_star_prefix(&p0, t, fields@, len as int, i as int + 1);
                                }
                            }
                            return Err(e);
                        },
                    };
                    proof {
                        assert(pools.kinds@[star.0 as int] == pi.kinds@[star.0 as int]);
                        lemma_same_kind_star(pools.kinds@, field_kind.0 as int, star.0 as int);
                        if let Some(Some(j)) = kind_value(&p0, a.0 as int) {
                            assert(pools.kinds@[j] == p0.kinds@[j]);
                        }
                    }
                    match self.unify_kinds(pools, field_kind, star) {
                        Ok(()) => {},
                        Err(e) => {
                            proof {
                                if fields_star(&p0, t, fields@, len as int) {
                                    lemma_fields_star_prefix(&p0, t, fields@, len as int, i as int + 1);
                                }
                            }
                            return Err(e);
                        },
                    }
                    i = i + 1;
                }
                let ghost pr = *pools;
                proof {
                    lemma_kind_value_grow(&p0, &pr, rest.0 as int);
                    lemma_kind_value_range(&p0, rest.0 as int);
                }
                let rest_kind = match self.infer_kind(pools, rest) {
                    Ok(k) => k,
                    Err(e) => return Err(e),
                };
                proof {
                    assert(pools.kinds@[star.0 as int] == pr.kinds@[star.0 as int]);
                    lemma_same_kind_star(pools.kinds@, rest_kind.0 as int, star.0 as int);
                    if let Some(Some(j)) = kind_value(&p0, rest.0 as int) {
                        assert(pools.kinds@[j] == p0.kinds@[j]);
                    }
                }
                match self.unify_kinds(pools, rest_kind, star) {
                    Ok(()) => {},
                    Err(e) => return Err(e),
                }
                Ok(star)
            },
        }
    }

    /// Applies a constructor's kind to the kinds of its arguments.
    fn apply_constructor_kind(
        &mut self,
        pools: &mut Pools,
        owner: TypeId,
        constructor_kind: KindId,
        args: &Vec<TypeId>,
        constructor_name: InternedString,
    ) -> (r: Result<KindId, KindError>)
        requires
            old(self).wf(),
            old(pools).wf(),
            owner.0 < old(pools).types@.len(),
            constructor_kind.0 < old(pools).kinds@.len(),
            forall|k: int| 0 <= k < args@.len() ==> (#[trigger] args@[k]).0 < owner.0,
        ensures
            final(self).wf(),
            final(pools).wf(),
            only_kinds_grow(old(pools), final(pools)),
            r is Ok <==> (args@.len() == kind_arity(old(pools).kinds@, constructor_kind.0 as int) && args_fit(
                old(pools),
                owner.0 as int,
                args@,
                args@.len() as int,
                constructor_kind.0 as int,
            )),
            r matches Ok(k) ==> k.0 == kind_result_after(old(pools).kinds@, constructor_kind.0 as int, args@.len()),
            args@.len() != kind_arity(old(pools).kinds@, constructor_kind.0 as int) ==> (r matches Err(KindError::ArityMismatch {
                constructor,
                expected,
                actual,
            }) && constructor == constructor_name && expected == kind_arity(old(pools).kinds@, constructor_kind.0 as int)
                && actual == args@.len()),
        decreases owner.0, 0nat,
    {
        let ghost p0 = *pools;
        let ghost ck = constructor_kind.0 as int;
        let expected_arity = self.count_kind_arrows(pools, constructor_kind);
        if args.len() != expected_arity {
            return Err(KindError::ArityMismatch { constructor: constructor_name, expected: expected_arity, actual: args.len() });
        }
        let mut current = constructor_kind;
        let mut i: usize = 0;
        while i < args.len()
            invariant
                i <= args@.len(),
                p0 == *old(pools),
                p0.wf(),
                self.wf(),
                pools.wf(),
                only_kinds_grow(&p0, pools),
                0 <= ck < p0.kinds@.len(),
                ck == constructor_kind.0,
                current.0 == kind_result_after(p0.kinds@, ck, i as nat),
                owner.0 < p0.types@.len(),
                forall|k: int| 0 <= k < args@.len() ==> (#[trigger] args@[k]).0 < owner.0,
                args@.len() == kind_arity(p0.kinds@, ck),
                args_fit(&p0, owner.0 as int, args@, i as int, ck),
            decreases args@.len() - i,
        {
            assert(pools.types@ == p0.types@);
            let ghost pi = *pools;
            let a = args[i];
            proof {
                lemma_result_after(&p0, ck, i as nat);
                lemma_kind_value_grow(&p0, &pi, a.0 as int);
                lemma_kind_value_range(&p0, a.0 as int);
            }
            let arg_kind = match self.infer_kind(pools, a) {
                Ok(k) => k,
                Err(e) => {
                    proof {
                        if args_fit(&p0, owner.0 as int, args@, args@.len() as int, ck) {
                            lemma_args_fit_prefix(&p0, owner.0 as int, args@, args@.len() as int, i as int + 1, ck);
                        }
                    }
                    return Err(e);
                },
            };
            let kind = pools.kinds[current.0];
            proof {
                assert(pools.kinds@[current.0 as int] == p0.kinds@[current.0 as int]);
            }
            match kind {
                Kind::Arrow(param_kind, result_kind) => {
                    proof {
                        assert(pools.kinds@[param_kind.0 as int] == p0.kinds@[param_kind.0 as int]);
                        if let Some(Some(j)) = kind_value(&p0, a.0 as int) {
                            lemma_same_kind_grow(&p0, &*pools, j, param_kind.0 as int);
                        } else {
                            lemma_same_kind_star(pools.kinds@, arg_kind.0 as int, param_kind.0 as int);
                        }
                    }
                    match self.unify_kinds(pools, arg_kind, param_kind) {
                        Ok(()) => {},
                        Err(e) => {
                            proof {
                                if args_fit(&p0, owner.0 as int, args@, args@.len() as int, ck) {
                            lemma_args_fit_prefix(&p0, owner.0 as int, args@, args@.len() as int, i as int + 1, ck);
                        }
                            }
                            return Err(e);
                        },
                    }
                    current = result_kind;
                },
                Kind::Star => {
                    return Err(KindError::ArityMismatch { constructor: constructor_name, expected: 0, actual: args.len() });
                },
            }
            i = i + 1;
        }
        Ok(current)
    }

    /// The number of arrows along the result side of a kind.
    fn count_kind_arrows(&self, pools: &Pools, kind: KindId) -> (r: usize)
        requires
            pools.wf(),
        ensures
            r == kind_arity(pools.kinds@, kind.0 as int),
        decreases kind.0,
    {
        if kind.0 >= pools.kinds.len() {
            return 0;
        }
        proof {
            assert(pools.kind_node_ok(pools.kinds@[kind.0 as int], kind.0 as int));
            lemma_arity_bound(pools.kinds@, kind.0 as int);
        }
        match pools.kinds[kind.0] {
            Kind::Star => 0,
            Kind::Arrow(_, result) => 1 + self.count_kind_arrows(pools, result),
        }
    }

    /// Unifies two kinds; they unify exactly when they have the same shape.
    pub fn unify_kinds(&mut self, pools: &Pools, k1: KindId, k2: KindId) -> (r: Result<(), KindError>)
        requires
            old(self).wf(),
            pools.wf(),
            k1.0 < pools.kinds@.len(),
            k2.0 < pools.kinds@.len(),
        ensures
            final(self).wf(),
            r is Ok <==> same_kind(pools.kinds@, k1.0 as int, k2.0 as int),
            r matches Err(e) ==> (kind_mismatch(pools.kinds@, k1.0 as int, k2.0 as int) matches Some(p) && e == KindError::KindMismatch {
                expected: KindId(p.0 as usize),
                actual: KindId(p.1 as usize),
            }),
        decreases k1.0,
    {
        let k1 = self.deref_kind(k1);
        let k2 = self.deref_kind(k2);
        if k1.0 == k2.0 {
            return Ok(());
        }
        let k1_kind = pools.kinds[k1.0];
        let k2_kind = pools.kinds[k2.0];
        proof {
            assert(pools.kind_node_ok(pools.kinds@[k1.0 as int], k1.0 as int));
            assert(pools.kind_node_ok(pools.kinds@[k2.0 as int], k2.0 as int));
        }
        match (k1_kind, k2_kind) {
            (Kind::Star, Kind::Star) => Ok(()),
            (Kind::Arrow(from1, to1), Kind::Arrow(from2, to2)) => {
                proof {
                    lemma_kind_mismatch_same(pools.kinds@, from1.0 as int, from2.0 as int);
                }
                match self.unify_kinds(pools, from1, from2) {
                    Ok(()) => {},
                    Err(e) => return Err(e),
                }
                self.unify_kinds(pools, to1, to2)
            },
            _ => Err(KindError::KindMismatch { expected: k1, actual: k2 }),
        }
    }

    /// A kind after the checker's substitution.
    fn deref_kind(&self, kind: KindId) -> (r: KindId)
        requires
            self.wf(),
        ensures
            r == kind,
    {
        let mut i: usize = 0;
        while i < self.kind_substitution.len()
            invariant
                i <= self.kind_substitution@.len(),
                self.kind_substitution@.len() == 0,
            decreases self.kind_substitution@.len() - i,
        {
            if self.kind_substitution[i].0 == kind {
                return self.kind_substitution[i].1;
            }
            i = i + 1;
        }
        kind
    }

    /// Fails unless the type has kind `*`.
    pub fn check_type_well_kinded(&mut self, pools: &mut Pools, type_id: TypeId) -> (r: Result<(), KindError>)
        requires
            old(self).wf(),
            old(pools).wf(),
            old(pools).valid_type(type_id),
        ensures
            final(self).wf(),
            final(pools).wf(),
            only_kinds_grow(old(pools), final(pools)),
            r is Ok <==> well_kinded(old(pools), type_id.0 as int),
            match old(pools).types@[type_id.0 as int] {
                Type::DataType(name, _, _, _) => assoc_get(old(pools).type_constructor_kinds@, name) is None
                    ==> (r matches Err(KindError::UnboundTypeConstructor(n)) && n == name),
                _ => true,
            },
    {
        let ghost p0 = *pools;
        let kind = match self.infer_kind(pools, type_id) {
            Ok(k) => k,
            Err(e) => return Err(e),
        };
        let star = pools.kind_star();
        proof {
            lemma_kind_value_range(&p0, type_id.0 as int);
            lemma_same_kind_star(pools.kinds@, kind.0 as int, star.0 as int);
            if let Some(Some(j)) = kind_value(&p0, type_id.0 as int) {
                assert(pools.kinds@[j] == p0.kinds@[j]);
            }
        }
        match self.unify_kinds(pools, kind, star) {
            Ok(()) => {},
            Err(e) => return Err(e),
        }
        Ok(())
    }

    /// Binds the kind of a data type (one arrow per parameter) and checks the
    /// component type of each constructor.
    pub fn check_data_type_definition(
        &mut self,
        pools: &mut Pools,
        data_name: InternedString,
        type_params: &[InternedString],
        constructors: &[(InternedString, Option<TypeId>)],
    ) -> (r: Result<(), KindError>)
        requires
            old(self).wf(),
            old(pools).wf(),
            forall|k: int| 0 <= k < constructors@.len() && (#[trigger] constructors@[k]).1 is Some
                ==> old(pools).valid_type(constructors@[k].1.unwrap()),
        ensures
            final(self).wf(),
            final(pools).wf(),
            old(pools).grows_to(final(pools)),
            final(pools).type_constructor_kinds@.len() >= 1,
            assoc_get(final(pools).type_constructor_kinds@, data_name) matches Some(k)
                && kind_arity(final(pools).kinds@, k.0 as int) == type_params@.len()
                && crate::pools::star_arrows(final(pools).kinds@, k.0 as int, type_params@.len())
                && final(pools).type_constructor_kinds@ == crate::pools::assoc_put(old(pools).type_constructor_kinds@, data_name, k),
            *final(pools) == (Pools { kinds: final(pools).kinds, type_constructor_kinds: final(pools).type_constructor_kinds, ..*old(pools) }),
            r is Ok <==> forall|k: int| 0 <= k < constructors@.len() && (#[trigger] constructors@[k]).1 is Some
                ==> well_kinded(final(pools), constructors@[k].1.unwrap().0 as int),
    {
        let data_kind = pools.compute_data_type_kind(type_params);
        pools.bind_type_constructor_kind(data_name, data_kind);
        proof {
            crate::pools::lemma_assoc_put_get(old(pools).type_constructor_kinds@, data_name, data_kind, data_name);
        }
        let ghost bound = *pools;
        let mut i: usize = 0;
        while i < constructors.len()
            invariant
                i <= constructors@.len(),
                self.wf(),
                pools.wf(),
                bound.wf(),
                old(pools).grows_to(pools),
                only_kinds_grow(&bound, pools),
                bound == (Pools { kinds: bound.kinds, type_constructor_kinds: bound.type_constructor_kinds, ..*old(pools) }),
                bound.type_constructor_kinds@ == crate::pools::assoc_put(old(pools).type_constructor_kinds@, data_name, data_kind),
                assoc_get(pools.type_constructor_kinds@, data_name) == Some(data_kind),
                data_kind.0 < pools.kinds@.len(),
                kind_arity(pools.kinds@, data_kind.0 as int) == type_params@.len(),
                crate::pools::star_arrows(pools.kinds@, data_kind.0 as int, type_params@.len()),
                forall|k: int| 0 <= k < constructors@.len() && (#[trigger] constructors@[k]).1 is Some
                    ==> old(pools).valid_type(constructors@[k].1.unwrap()),
                forall|k: int| 0 <= k < i && (#[trigger] constructors@[k]).1 is Some
                    ==> well_kinded(&bound, constructors@[k].1.unwrap().0 as int),
            decreases constructors@.len() - i,
        {
            let ghost before = *pools;
            match constructors[i].1 {
                Some(comp_type) => {
                    let r = self.check_type_well_kinded(pools, comp_type);
                    proof {
                        lemma_arity_grow(&before, &*pools, data_kind.0 as int);
                        crate::pools::lemma_star_arrows_grow(before.kinds@, pools.kinds@, data_kind.0 as int, type_params@.len());
                        lemma_kind_value_grow(&bound, &before, comp_type.0 as int);
                        lemma_kind_value_grow(&bound, &*pools, comp_type.0 as int);
                    }
                    match r {
                        Ok(()) => {},
                        Err(e) => return Err(e),
                    }
                },
                None => {},
            }
            i = i + 1;
        }
        proof {
            assert forall|k: int| 0 <= k < constructors@.len() && (#[trigger] constructors@[k]).1 is Some implies well_kinded(
                &*pools,
                constructors@[k].1.unwrap().0 as int,
            ) by {
                lemma_kind_value_grow(&bound, &*pools, constructors@[k].1.unwrap().0 as int);
            }
        }
        Ok(())
    }

    /// Checks a constructor's component type; quantified variables are kinded `*`.
    pub fn check_constructor_quantified_types(
        &mut self,
        pools: &mut Pools,
        component_type: TypeId,
        _type_params: &[InternedString],
    ) -> (r: Result<(), KindError>)
        requires
            old(self).wf(),
            old(pools).wf(),
            old(pools).valid_type(component_type),
        ensures
            final(self).wf(),
            final(pools).wf(),
            only_kinds_grow(old(pools), final(pools)),
            r is Ok <==> well_kinded(old(pools), component_type.0 as int),
    {
        self.check_type_well_kinded(pools, component_type)
    }
}

proof fn lemma_arity_bound(kinds: Seq<Kind>, k: int)
    ensures
        kind_arity(kinds, k) <= if k >= 0 { k + 1 } else { 0 },
    decreases k,
{
    if 0 <= k < kinds.len() {
        match kinds[k] {
            Kind::Arrow(_, r) => {
                if 0 <= r.0 < k {
                    lemma_arity_bound(kinds, r.0 as int);
                }
            },
            Kind::Star => {},
        }
    }
}

/// Checks that a type has kind `*`.
pub fn check_type_kinds(pools: &mut Pools, type_id: TypeId) -> (r: Result<(), KindError>)
    requires
        old(pools).wf(),
        old(pools).valid_type(type_id),
    ensures
        final(pools).wf(),
        only_kinds_grow(old(pools), final(pools)),
        r is Ok <==> well_kinded(old(pools), type_id.0 as int),
        match old(pools).types@[type_id.0 as int] {
            Type::DataType(name, _, _, _) => assoc_get(old(pools).type_constructor_kinds@, name) is None
                ==> (r matches Err(KindError::UnboundTypeConstructor(n)) && n == name),
            _ => true,
        },
{
    let mut checker = KindChecker::new();
    checker.check_type_well_kinded(pools, type_id)
}

/// Binds the kind of a data type and checks its constructors' component types.
pub fn check_data_definition_kinds(
    pools: &mut Pools,
    data_name: InternedString,
    type_params: &[InternedString],
    constructors: &[(InternedString, Option<TypeId>)],
) -> (r: Result<(), KindError>)
    requires
        old(pools).wf(),
        forall|k: int| 0 <= k < constructors@.len() && (#[trigger] constructors@[k]).1 is Some
            ==> old(pools).valid_type(constructors@[k].1.unwrap()),
    ensures
        final(pools).wf(),
        old(pools).grows_to(final(pools)),
        assoc_get(final(pools).type_constructor_kinds@, data_name) matches Some(k)
            && kind_arity(final(pools).kinds@, k.0 as int) == type_params@.len()
                && crate::pools::star_arrows(final(pools).kinds@, k.0 as int, type_params@.len())
            && final(pools).type_constructor_kinds@ == crate::pools::assoc_put(old(pools).type_constructor_kinds@, data_name, k),
        *final(pools) == (Pools { kinds: final(pools).kinds, type_constructor_kinds: final(pools).type_constructor_kinds, ..*old(pools) }),
        r is Ok <==> forall|k: int| 0 <= k < constructors@.len() && (#[trigger] constructors@[k]).1 is Some
            ==> well_kinded(final(pools), constructors@[k].1.unwrap().0 as int),
{
    let mut checker = KindChecker::new();
    checker.check_data_type_definition(pools, data_name, type_params, constructors)
}

} // verus!
