//! The arenas that hold every expression, type, kind and source span of a program.
use vstd::prelude::*;

use crate::expr::{Expr, MatchArms, MatchCase, Pattern, PatternBinding, RecordField, RecordPatternField};
use crate::types::{ConstructorType, FieldId, RowField, Type, TypeScheme};
use crate::{InternedString, StringInterner};

verus! {

#[derive(Debug, Clone, Copy, PartialEq, Eq, Hash, Structural)]
pub struct ExprId(pub usize);

#[derive(Debug, Clone, Copy, PartialEq, Eq, Hash, Structural)]
pub struct TypeId(pub usize);

#[derive(Debug, Clone, Copy, PartialEq, Eq, Hash, Structural)]
pub struct PatternId(pub usize);

#[derive(Debug, Clone, Copy, PartialEq, Eq, Hash, Structural)]
pub struct DeBruijnIndex(pub usize);

impl DeBruijnIndex {
    pub fn new(index: usize) -> (r: Self)
        ensures
            r.0 == index,
    {
        Self(index)
    }

    pub fn index(&self) -> (r: usize)
        ensures
            r == self.0,
    {
        self.0
    }
}

#[derive(Debug, Clone, Copy, PartialEq, Eq, Hash, Ord, PartialOrd, Structural)]
pub struct GlobalVarIdx(pub usize);

#[derive(Debug, Clone, Copy, PartialEq, Eq, Hash, Ord, PartialOrd, Structural)]
pub struct KindId(pub usize);

#[derive(Debug, Clone, Copy, PartialEq, Eq, Hash, Ord, PartialOrd, Structural)]
pub struct SpanId(pub usize);

/// A type variable; two variables are the same variable when their numbers agree,
/// whatever names they carry.
#[derive(Debug, Clone, Copy)]
pub struct TypeVarId(pub usize, pub Option<InternedString>);

impl TypeVarId {
    pub fn new(id: usize) -> (r: Self)
        ensures
            r.0 == id,
            r.1 is None,
    {
        Self(id, None)
    }

    pub fn new_named(id: usize, name: InternedString) -> (r: Self)
        ensures
            r.0 == id,
            r.1 == Some(name),
    {
        Self(id, Some(name))
    }

    pub fn id(&self) -> (r: usize)
        ensures
            r == self.0,
    {
        self.0
    }

    pub fn name(&self) -> (r: Option<InternedString>)
        ensures
            r == self.1,
    {
        self.1
    }
}

impl PartialEq for TypeVarId {
    fn eq(&self, other: &Self) -> (r: bool) {
        self.0 == other.0
    }
}

impl vstd::std_specs::cmp::PartialEqSpecImpl for TypeVarId {
    open spec fn obeys_eq_spec() -> bool {
        true
    }

    open spec fn eq_spec(&self, other: &Self) -> bool {
        self.0 == other.0
    }
}

impl Eq for TypeVarId {

}

impl GlobalVarIdx {
    pub fn new(index: usize) -> (r: Self)
        ensures
            r.0 == index,
    {
        Self(index)
    }

    pub fn index(&self) -> (r: usize)
        ensures
            r == self.0,
    {
        self.0
    }
}

impl KindId {
    pub fn new(index: usize) -> (r: Self)
        ensures
            r.0 == index,
    {
        Self(index)
    }

    pub fn index(&self) -> (r: usize)
        ensures
            r == self.0,
    {
        self.0
    }
}

impl SpanId {
    pub fn new(index: usize) -> (r: Self)
        ensures
            r.0 == index,
    {
        Self(index)
    }

    pub fn index(&self) -> (r: usize)
        ensures
            r == self.0,
    {
        self.0
    }

    /// The span of generated code, which has no source position.
    pub fn dummy() -> (r: Self)
        ensures
            r.0 == 0,
    {
        Self(0)
    }
}

#[derive(Debug, Clone, Copy, PartialEq, Eq, Structural)]
pub enum Kind {
    Star,
    Arrow(KindId, KindId),
}

/// Where a piece of syntax came from.
#[derive(Debug, Clone, Copy, PartialEq, Eq, Structural)]
pub enum Localization {
    Real { start: usize, end: usize },
    Provenance(SpanId),
    Merged(SpanId, SpanId),
    Dummy,
}

/// `a` is a prefix of `b`.
pub open spec fn prefix_of<T>(a: Seq<T>, b: Seq<T>) -> bool {
    a.len() <= b.len() && forall|i: int| 0 <= i < a.len() ==> #[trigger] b[i] == a[i]
}

/// A prefix of a prefix is a prefix.
pub proof fn lemma_prefix_trans<T>(a: Seq<T>, b: Seq<T>, c: Seq<T>)
    requires
        prefix_of(a, b),
        prefix_of(b, c),
    ensures
        prefix_of(a, c),
{
    assert forall|k: int| 0 <= k < a.len() implies #[trigger] c[k] == a[k] by {
        assert(b[k] == a[k]);
        assert(c[k] == b[k]);
    }
}

/// The first entry of an association list whose key is `k`.
pub open spec fn assoc_index<K, V>(s: Seq<(K, V)>, k: K) -> int
    decreases s.len(),
{
    if s.len() == 0 {
        -1
    } else if s.last().0 == k && assoc_index(s.drop_last(), k) == -1 {
        s.len() - 1
    } else {
        assoc_index(s.drop_last(), k)
    }
}

pub proof fn lemma_assoc_index<K, V>(s: Seq<(K, V)>, k: K)
    ensures
        -1 <= assoc_index(s, k) < s.len(),
        assoc_index(s, k) >= 0 ==> s[assoc_index(s, k)].0 == k,
        assoc_index(s, k) >= 0 ==> forall|j: int|
            0 <= j < assoc_index(s, k) ==> s[j].0 != k,
        assoc_index(s, k) == -1 ==> forall|j: int| 0 <= j < s.len() ==> s[j].0 != k,
    decreases s.len(),
{
    if s.len() > 0 {
        let t = s.drop_last();
        lemma_assoc_index(t, k);
        assert forall|j: int| 0 <= j < t.len() implies t[j] == s[j] by {}
    }
}

/// Characterises `assoc_index` by the first match.
pub proof fn lemma_assoc_index_first<K, V>(s: Seq<(K, V)>, k: K, i: int)
    requires
        0 <= i < s.len(),
        s[i].0 == k,
        forall|j: int| 0 <= j < i ==> s[j].0 != k,
    ensures
        assoc_index(s, k) == i,
{
    lemma_assoc_index(s, k);
    let r = assoc_index(s, k);
    if r == -1 {
        assert(s[i].0 != k);
    } else if r < i {
        assert(s[r].0 != k);
    } else if r > i {
        assert(s[i].0 != k);
    }
}

pub proof fn lemma_assoc_index_none<K, V>(s: Seq<(K, V)>, k: K)
    requires
        forall|j: int| 0 <= j < s.len() ==> s[j].0 != k,
    ensures
        assoc_index(s, k) == -1,
{
    lemma_assoc_index(s, k);
    let r = assoc_index(s, k);
    if r >= 0 {
        assert(s[r].0 != k);
    }
}

/// The value bound to `k` in an association list (first binding wins).
pub open spec fn assoc_get<K, V>(s: Seq<(K, V)>, k: K) -> Option<V> {
    if assoc_index(s, k) >= 0 {
        Some(s[assoc_index(s, k)].1)
    } else {
        None
    }
}

/// The association list after binding `k` to `v`: the first binding of `k` is
/// replaced, or a new binding is appended.
pub open spec fn assoc_put<K, V>(s: Seq<(K, V)>, k: K, v: V) -> Seq<(K, V)> {
    if assoc_index(s, k) >= 0 {
        s.update(assoc_index(s, k), (k, v))
    } else {
        s.push((k, v))
    }
}

/// Reading a key just bound gives the value bound; other keys are unaffected.
pub proof fn lemma_assoc_put_get<K, V>(s: Seq<(K, V)>, k: K, v: V, other: K)
    ensures
        assoc_get(assoc_put(s, k, v), k) == Some(v),
        other != k ==> assoc_get(assoc_put(s, k, v), other) == assoc_get(s, other),
{
    lemma_assoc_index(s, k);
    lemma_assoc_index(s, other);
    let t = assoc_put(s, k, v);
    lemma_assoc_index(t, k);
    lemma_assoc_index(t, other);
    let i = assoc_index(s, k);
    if i >= 0 {
        lemma_assoc_index_first(t, k, i);
        if other != k {
            let j = assoc_index(s, other);
            if j >= 0 {
                lemma_assoc_index_first(t, other, j);
            } else {
                lemma_assoc_index_none(t, other);
            }
        }
    } else {
        lemma_assoc_index_first(t, k, s.len() as int);
        if other != k {
            let j = assoc_index(s, other);
            if j >= 0 {
                lemma_assoc_index_first(t, other, j);
            } else {
                lemma_assoc_index_none(t, other);
            }
        }
    }
}

/// A property of every bound value survives binding a value that has it.
pub proof fn lemma_assoc_put_all<K, V>(s: Seq<(K, V)>, k: K, v: V, p: spec_fn(V) -> bool)
    requires
        forall|j: int| 0 <= j < s.len() ==> p(#[trigger] s[j].1),
        p(v),
    ensures
        forall|j: int| 0 <= j < assoc_put(s, k, v).len() ==> p(#[trigger] assoc_put(s, k, v)[j].1),
{
    lemma_assoc_index(s, k);
    let t = assoc_put(s, k, v);
    assert forall|j: int| 0 <= j < t.len() implies p(#[trigger] t[j].1) by {
        if assoc_index(s, k) >= 0 {
            if j != assoc_index(s, k) {
                assert(t[j] == s[j]);
            }
        } else {
            if j < s.len() {
                assert(t[j] == s[j]);
            }
        }
    }
}

/// The arenas of a program and its global tables.
#[derive(Debug, Clone)]
pub struct Pools {
    pub exprs: Vec<Expr>,
    pub patterns: Vec<MatchCase>,
    pub pattern_bindings: Vec<PatternBinding>,
    pub nested_patterns: Vec<Pattern>,
    pub types: Vec<Type>,
    pub type_params: Vec<TypeId>,
    pub row_fields: Vec<RowField>,
    pub record_fields: Vec<RecordField>,
    pub record_pattern_fields: Vec<RecordPatternField>,
    pub kinds: Vec<Kind>,
    pub localizations: Vec<Localization>,
    /// Type schemes of global names, first binding wins.
    pub globals: Vec<(InternedString, TypeScheme)>,
    pub constructors: Vec<(InternedString, ConstructorType)>,
    pub function_implementations: Vec<(InternedString, ExprId)>,
    /// Global names in the order they were first bound.
    pub global_order: Vec<InternedString>,
    pub type_constructor_kinds: Vec<(InternedString, KindId)>,
    pub next_type_var: usize,
    pub cached_int_type: TypeId,
    pub cached_unit_type: TypeId,
    pub cached_empty_row_type: TypeId,
    pub interner: StringInterner,
}

impl Pools {
    // ----- well-formedness -------------------------------------------------
    pub open spec fn params_below(&self, start: int, len: int, bound: int) -> bool {
        &&& 0 <= start
        &&& start + len <= self.type_params@.len()
        &&& forall|k: int| start <= k < start + len ==> (#[trigger] self.type_params@[k]).0 < bound
    }

    pub open spec fn row_below(&self, start: int, len: int, bound: int) -> bool {
        &&& 0 <= start
        &&& start + len <= self.row_fields@.len()
        &&& forall|k: int|
            start <= k < start + len ==> (#[trigger] self.row_fields@[k]).field_type.0 < bound
    }

    /// A type node refers only to nodes below `bound` and to existing parameter and field runs.
    pub open spec fn type_node_ok(&self, t: Type, bound: int) -> bool {
        match t {
            Type::Arrow(a, b, _) => a.0 < bound && b.0 < bound,
            Type::DataType(_, s, l, _) => self.params_below(s.0 as int, l as int, bound),
            Type::TypeApp(_, s, l, _) => self.params_below(s.0 as int, l as int, bound),
            Type::Row(s, l, r, _) => self.row_below(s.0 as int, l as int, bound) && r.0 < bound,
            _ => true,
        }
    }

    pub open spec fn types_wf(&self) -> bool {
        forall|i: int|
            0 <= i < self.types@.len() ==> #[trigger] self.type_node_ok(self.types@[i], i)
    }

    pub open spec fn valid_type(&self, t: TypeId) -> bool {
        t.0 < self.types@.len()
    }

    pub open spec fn fields_below(&self, start: int, len: int, bound: int) -> bool {
        &&& 0 <= start
        &&& start + len <= self.record_fields@.len()
        &&& forall|k: int| start <= k < start + len ==> (#[trigger] self.record_fields@[k]).expr.0 < bound
    }

    pub open spec fn arms_below(&self, arms: MatchArms, bound: int) -> bool {
        &&& arms.start_id.0 + arms.length <= self.patterns@.len()
        &&& forall|k: int|
            arms.start_id.0 <= k < arms.start_id.0 + arms.length ==> (#[trigger] self.patterns@[k]).body.0
                < bound
    }

    /// An expression node refers only to expressions below `bound`.
    pub open spec fn expr_node_ok(&self, e: Expr, bound: int) -> bool {
        match e {
            Expr::Call(f, a, _) => f.0 < bound && a.0 < bound,
            Expr::Lambda(b, _, _) => b.0 < bound,
            Expr::Let(v, b, _, _) => v.0 < bound && b.0 < bound,
            Expr::Construct(_, a, _) => a.0 < bound,
            Expr::Match(s, arms, _) => s.0 < bound && self.arms_below(arms, bound),
            Expr::Record(s, l, _) => self.fields_below(s.0 as int, l as int, bound),
            Expr::Project(r, _, _) => r.0 < bound,
            Expr::Extend(r, s, l, _) => r.0 < bound && self.fields_below(s.0 as int, l as int, bound),
            Expr::Ffi(_, t, a, _) => (t is Some ==> t.unwrap().0 < self.types@.len()) && (a is Some
                ==> a.unwrap().0 < bound),
            _ => true,
        }
    }

    pub open spec fn exprs_wf(&self) -> bool {
        forall|i: int|
            0 <= i < self.exprs@.len() ==> #[trigger] self.expr_node_ok(self.exprs@[i], i)
    }

    pub open spec fn valid_expr(&self, e: ExprId) -> bool {
        e.0 < self.exprs@.len()
    }

    /// A pattern's nested runs lie inside their pools.
    pub open spec fn pattern_ok(&self, p: Pattern) -> bool {
        match p {
            Pattern::Constructor(_, s, l, _) => s.0 + l <= self.nested_patterns@.len(),
            Pattern::Record(s, l, _, _) => s.0 + l <= self.record_pattern_fields@.len(),
            _ => true,
        }
    }

    pub open spec fn patterns_wf(&self) -> bool {
        &&& forall|k: int|
            0 <= k < self.patterns@.len() ==> (#[trigger] self.patterns@[k]).body.0
                < self.exprs@.len() && self.pattern_ok(self.patterns@[k].pattern)
        &&& forall|k: int|
            0 <= k < self.nested_patterns@.len() ==> #[trigger] self.pattern_ok(
                self.nested_patterns@[k],
            )
        &&& forall|k: int|
            0 <= k < self.record_pattern_fields@.len() ==> #[trigger] self.pattern_ok(
                self.record_pattern_fields@[k].pattern,
            )
    }

    pub open spec fn kind_node_ok(&self, k: Kind, bound: int) -> bool {
        match k {
            Kind::Arrow(a, b) => a.0 < bound && b.0 < bound,
            Kind::Star => true,
        }
    }

    pub open spec fn kinds_wf(&self) -> bool {
        forall|i: int|
            0 <= i < self.kinds@.len() ==> #[trigger] self.kind_node_ok(self.kinds@[i], i)
    }

    pub open spec fn span_node_ok(&self, l: Localization, bound: int) -> bool {
        match l {
            Localization::Provenance(p) => p.0 < bound,
            Localization::Merged(a, b) => a.0 < bound && b.0 < bound,
            _ => true,
        }
    }

    pub open spec fn spans_wf(&self) -> bool {
        &&& self.localizations@.len() >= 1
        &&& forall|i: int|
            0 <= i < self.localizations@.len() ==> #[trigger] self.span_node_ok(
                self.localizations@[i],
                i,
            )
    }

    pub open spec fn tables_wf(&self) -> bool {
        &&& forall|k: int|
            0 <= k < self.globals@.len() ==> (#[trigger] self.globals@[k]).1.ty.0
                < self.types@.len()
        &&& forall|k: int|
            0 <= k < self.constructors@.len() ==> (#[trigger] self.constructors@[k]).1.component_type.0
                < self.types@.len() && self.constructors@[k].1.result_type.0 < self.types@.len()
        &&& forall|k: int|
            0 <= k < self.function_implementations@.len() ==> (
            #[trigger] self.function_implementations@[k]).1.0 < self.exprs@.len()
        &&& forall|k: int|
            0 <= k < self.type_constructor_kinds@.len() ==> (
            #[trigger] self.type_constructor_kinds@[k]).1.0 < self.kinds@.len()
    }

    pub open spec fn cache_wf(&self) -> bool {
        &&& self.cached_int_type.0 < self.types@.len()
        &&& self.cached_unit_type.0 < self.types@.len()
        &&& self.cached_empty_row_type.0 < self.types@.len()
        &&& self.types@[self.cached_empty_row_type.0 as int] is EmptyRow
        &&& self.types@[self.cached_unit_type.0 as int] is Unit
        &&& self.types@[self.cached_int_type.0 as int] is Int
    }

    /// Every reference between the arenas is in bounds and points backwards.
    pub open spec fn wf(&self) -> bool {
        &&& self.types_wf()
        &&& self.exprs_wf()
        &&& self.patterns_wf()
        &&& self.kinds_wf()
        &&& self.spans_wf()
        &&& self.tables_wf()
        &&& self.cache_wf()
        &&& self.interner.wf()
    }

    /// `new` holds every node of `self` at the same place.
    pub open spec fn grows_to(&self, new: &Pools) -> bool {
        &&& prefix_of(self.exprs@, new.exprs@)
        &&& prefix_of(self.patterns@, new.patterns@)
        &&& prefix_of(self.pattern_bindings@, new.pattern_bindings@)
        &&& prefix_of(self.nested_patterns@, new.nested_patterns@)
        &&& prefix_of(self.types@, new.types@)
        &&& prefix_of(self.type_params@, new.type_params@)
        &&& prefix_of(self.row_fields@, new.row_fields@)
        &&& prefix_of(self.record_fields@, new.record_fields@)
        &&& prefix_of(self.record_pattern_fields@, new.record_pattern_fields@)
        &&& prefix_of(self.kinds@, new.kinds@)
        &&& prefix_of(self.localizations@, new.localizations@)
        &&& prefix_of(self.interner.strings@, new.interner.strings@)
        &&& self.next_type_var <= new.next_type_var
    }

    /// `new` only adds type nodes (and their parameter and field runs) to `self`.
    pub open spec fn only_types_grow(&self, new: &Pools) -> bool {
        &&& self.grows_to(new)
        &&& new.exprs == self.exprs
        &&& new.patterns == self.patterns
        &&& new.pattern_bindings == self.pattern_bindings
        &&& new.nested_patterns == self.nested_patterns
        &&& new.record_fields == self.record_fields
        &&& new.record_pattern_fields == self.record_pattern_fields
        &&& new.kinds == self.kinds
        &&& new.localizations == self.localizations
        &&& new.globals == self.globals
        &&& new.constructors == self.constructors
        &&& new.function_implementations == self.function_implementations
        &&& new.global_order == self.global_order
        &&& new.type_constructor_kinds == self.type_constructor_kinds
        &&& new.cached_int_type == self.cached_int_type
        &&& new.cached_unit_type == self.cached_unit_type
        &&& new.cached_empty_row_type == self.cached_empty_row_type
        &&& new.interner == self.interner
    }

    pub proof fn lemma_grows_refl(&self)
        ensures
            self.grows_to(self),
            self.only_types_grow(self),
    {
    }

    pub proof fn lemma_grows_trans(a: &Pools, b: &Pools, c: &Pools)
        requires
            a.grows_to(b),
            b.grows_to(c),
        ensures
            a.grows_to(c),
    {
    }

    pub proof fn lemma_only_types_trans(a: &Pools, b: &Pools, c: &Pools)
        requires
            a.only_types_grow(b),
            b.only_types_grow(c),
        ensures
            a.only_types_grow(c),
    {
    }

    /// Node checks stay true when the arenas grow.
    pub proof fn lemma_type_node_grow(&self, new: &Pools, t: Type, bound: int)
        requires
            self.type_node_ok(t, bound),
            self.grows_to(new),
        ensures
            new.type_node_ok(t, bound),
    {
        match t {
            Type::DataType(_, s, l, _) => {
                assert forall|k: int| s.0 <= k < s.0 + l implies (
                #[trigger] new.type_params@[k]).0 < bound by {
                    assert(new.type_params@[k] == self.type_params@[k]);
                }
            },
            Type::TypeApp(_, s, l, _) => {
                assert forall|k: int| s.0 <= k < s.0 + l implies (
                #[trigger] new.type_params@[k]).0 < bound by {
                    assert(new.type_params@[k] == self.type_params@[k]);
                }
            },
            Type::Row(s, l, r, _) => {
                assert forall|k: int| s.0 <= k < s.0 + l implies (
                #[trigger] new.row_fields@[k]).field_type.0 < bound by {
                    assert(new.row_fields@[k] == self.row_fields@[k]);
                }
            },
            _ => {},
        }
    }

    pub proof fn lemma_expr_node_grow(&self, new: &Pools, e: Expr, bound: int)
        requires
            self.expr_node_ok(e, bound),
            self.grows_to(new),
        ensures
            new.expr_node_ok(e, bound),
    {
        match e {
            Expr::Match(_, arms, _) => {
                assert forall|k: int|
                    arms.start_id.0 <= k < arms.start_id.0 + arms.length implies (
                #[trigger] new.patterns@[k]).body.0 < bound by {
                    assert(new.patterns@[k] == self.patterns@[k]);
                }
            },
            Expr::Record(s, l, _) => {
                assert forall|k: int| s.0 <= k < s.0 + l implies (
                #[trigger] new.record_fields@[k]).expr.0 < bound by {
                    assert(new.record_fields@[k] == self.record_fields@[k]);
                }
            },
            Expr::Extend(_, s, l, _) => {
                assert forall|k: int| s.0 <= k < s.0 + l implies (
                #[trigger] new.record_fields@[k]).expr.0 < bound by {
                    assert(new.record_fields@[k] == self.record_fields@[k]);
                }
            },
            _ => {},
        }
    }

    /// Growing arenas whose new nodes are well formed keeps the pools well formed.
    pub proof fn lemma_wf_extend(&self, new: &Pools)
        requires
            self.wf(),
            self.grows_to(new),
            forall|i: int|
                self.types@.len() <= i < new.types@.len() ==> #[trigger] new.type_node_ok(
                    new.types@[i],
                    i,
                ),
            forall|i: int|
                self.exprs@.len() <= i < new.exprs@.len() ==> #[trigger] new.expr_node_ok(
                    new.exprs@[i],
                    i,
                ),
            forall|i: int|
                self.kinds@.len() <= i < new.kinds@.len() ==> #[trigger] new.kind_node_ok(
                    new.kinds@[i],
                    i,
                ),
            forall|i: int|
                self.localizations@.len() <= i < new.localizations@.len()
                    ==> #[trigger] new.span_node_ok(new.localizations@[i], i),
            forall|k: int|
                self.patterns@.len() <= k < new.patterns@.len() ==> (
                #[trigger] new.patterns@[k]).body.0 < new.exprs@.len() && new.pattern_ok(
                    new.patterns@[k].pattern,
                ),
            forall|k: int|
                self.nested_patterns@.len() <= k < new.nested_patterns@.len()
                    ==> #[trigger] new.pattern_ok(new.nested_patterns@[k]),
            forall|k: int|
                self.record_pattern_fields@.len() <= k < new.record_pattern_fields@.len()
                    ==> #[trigger] new.pattern_ok(new.record_pattern_fields@[k].pattern),
            new.tables_wf(),
            new.cache_wf(),
            new.interner.wf(),
        ensures
            new.wf(),
    {
        assert forall|i: int| 0 <= i < new.types@.len() implies #[trigger] new.type_node_ok(
            new.types@[i],
            i,
        ) by {
            if i < self.types@.len() {
                assert(new.types@[i] == self.types@[i]);
                assert(self.type_node_ok(self.types@[i], i));
                self.lemma_type_node_grow(new, self.types@[i], i);
            }
        }
        assert forall|i: int| 0 <= i < new.exprs@.len() implies #[trigger] new.expr_node_ok(
            new.exprs@[i],
            i,
        ) by {
            if i < self.exprs@.len() {
                assert(new.exprs@[i] == self.exprs@[i]);
                assert(self.expr_node_ok(self.exprs@[i], i));
                self.lemma_expr_node_grow(new, self.exprs@[i], i);
            }
        }
        assert forall|i: int| 0 <= i < new.kinds@.len() implies #[trigger] new.kind_node_ok(
            new.kinds@[i],
            i,
        ) by {
            if i < self.kinds@.len() {
                assert(new.kinds@[i] == self.kinds@[i]);
                assert(self.kind_node_ok(self.kinds@[i], i));
            }
        }
        assert forall|i: int|
            0 <= i < new.localizations@.len() implies #[trigger] new.span_node_ok(
            new.localizations@[i],
            i,
        ) by {
            if i < self.localizations@.len() {
                assert(new.localizations@[i] == self.localizations@[i]);
                assert(self.span_node_ok(self.localizations@[i], i));
            }
        }
        assert forall|k: int| 0 <= k < new.patterns@.len() implies (
        #[trigger] new.patterns@[k]).body.0 < new.exprs@.len() && new.pattern_ok(
            new.patterns@[k].pattern,
        ) by {
            if k < self.patterns@.len() {
                assert(new.patterns@[k] == self.patterns@[k]);
                assert(self.patterns@[k].body.0 < self.exprs@.len() && self.pattern_ok(
                    self.patterns@[k].pattern,
                ));
            }
        }
        assert forall|k: int|
            0 <= k < new.nested_patterns@.len() implies #[trigger] new.pattern_ok(
            new.nested_patterns@[k],
        ) by {
            if k < self.nested_patterns@.len() {
                assert(new.nested_patterns@[k] == self.nested_patterns@[k]);
                assert(self.pattern_ok(self.nested_patterns@[k]));
            }
        }
        assert forall|k: int|
            0 <= k < new.record_pattern_fields@.len() implies #[trigger] new.pattern_ok(
            new.record_pattern_fields@[k].pattern,
        ) by {
            if k < self.record_pattern_fields@.len() {
                assert(new.record_pattern_fields@[k] == self.record_pattern_fields@[k]);
                assert(self.pattern_ok(self.record_pattern_fields@[k].pattern));
            }
        }
    }

    /// Unchanged global tables stay well formed when the arenas grow.
    pub proof fn lemma_tables_grow(&self, new: &Pools)
        requires
            self.tables_wf(),
            self.cache_wf(),
            self.grows_to(new),
            new.globals == self.globals,
            new.constructors == self.constructors,
            new.function_implementations == self.function_implementations,
            new.type_constructor_kinds == self.type_constructor_kinds,
            new.cached_int_type == self.cached_int_type,
            new.cached_unit_type == self.cached_unit_type,
            new.cached_empty_row_type == self.cached_empty_row_type,
        ensures
            new.tables_wf(),
            new.cache_wf(),
    {
        assert(new.types@[self.cached_empty_row_type.0 as int]
            == self.types@[self.cached_empty_row_type.0 as int]);
        assert(new.types@[self.cached_unit_type.0 as int]
            == self.types@[self.cached_unit_type.0 as int]);
        assert(new.types@[self.cached_int_type.0 as int]
            == self.types@[self.cached_int_type.0 as int]);
    }

    /// Appending type nodes that are well formed keeps the pools well formed.
    pub proof fn lemma_types_grow_wf(&self, new: &Pools)
        requires
            self.wf(),
            self.only_types_grow(new),
            forall|i: int|
                self.types@.len() <= i < new.types@.len() ==> #[trigger] new.type_node_ok(
                    new.types@[i],
                    i,
                ),
        ensures
            new.wf(),
    {
        self.lemma_tables_grow(new);
        self.lemma_wf_extend(new);
    }

    // ----- allocation ------------------------------------------------------
    pub fn alloc_expr(&mut self, expr: Expr) -> (id: ExprId)
        requires
            old(self).wf(),
            old(self).expr_node_ok(expr, old(self).exprs@.len() as int),
        ensures
            final(self).wf(),
            id.0 == old(self).exprs@.len(),
            final(self).exprs@ == old(self).exprs@.push(expr),
            *final(self) == (Pools { exprs: final(self).exprs, ..*old(self) }),
            old(self).grows_to(final(self)),
    {
        let id = ExprId(self.exprs.len());
        self.exprs.push(expr);
        proof {
            old(self).lemma_tables_grow(self);
            old(self).lemma_expr_node_grow(self, expr, id.0 as int);
            old(self).lemma_wf_extend(self);
        }
        id
    }

    pub fn alloc_type(&mut self, ty: Type) -> (id: TypeId)
        requires
            old(self).wf(),
            old(self).type_node_ok(ty, old(self).types@.len() as int),
        ensures
            final(self).wf(),
            id.0 == old(self).types@.len(),
            final(self).types@ == old(self).types@.push(ty),
            *final(self) == (Pools { types: final(self).types, ..*old(self) }),
            old(self).grows_to(final(self)),
            old(self).only_types_grow(final(self)),
    {
        let id = TypeId(self.types.len());
        self.types.push(ty);
        proof {
            old(self).lemma_types_grow_wf(self);
        }
        id
    }

    pub fn alloc_kind(&mut self, kind: Kind) -> (id: KindId)
        requires
            old(self).wf(),
            old(self).kind_node_ok(kind, old(self).kinds@.len() as int),
        ensures
            final(self).wf(),
            id.0 == old(self).kinds@.len(),
            final(self).kinds@ == old(self).kinds@.push(kind),
            *final(self) == (Pools { kinds: final(self).kinds, ..*old(self) }),
            old(self).grows_to(final(self)),
    {
        let id = KindId(self.kinds.len());
        self.kinds.push(kind);
        proof {
            old(self).lemma_tables_grow(self);
            old(self).lemma_wf_extend(self);
        }
        id
    }

    pub fn alloc_localization(&mut self, localization: Localization) -> (id: SpanId)
        requires
            old(self).wf(),
            old(self).span_node_ok(localization, old(self).localizations@.len() as int),
        ensures
            final(self).wf(),
            id.0 == old(self).localizations@.len(),
            final(self).localizations@ == old(self).localizations@.push(localization),
            *final(self) == (Pools { localizations: final(self).localizations, ..*old(self) }),
            old(self).grows_to(final(self)),
    {
        let id = SpanId(self.localizations.len());
        self.localizations.push(localization);
        proof {
            old(self).lemma_tables_grow(self);
            old(self).lemma_wf_extend(self);
        }
        id
    }
}


impl Localization {
    pub fn new(start: usize, end: usize) -> (r: Self)
        ensures
            r == (Localization::Real { start, end }),
    {
        Self::Real { start, end }
    }

    pub fn dummy() -> (r: Self)
        ensures
            r == Localization::Dummy,
    {
        Self::Dummy
    }

    pub fn provenance(parent: SpanId) -> (r: Self)
        ensures
            r == Localization::Provenance(parent),
    {
        Self::Provenance(parent)
    }

    pub fn merged(left: SpanId, right: SpanId) -> (r: Self)
        ensures
            r == Localization::Merged(left, right),
    {
        Self::Merged(left, right)
    }

    /// Resolves to source positions, following provenance and merging ranges.
    pub fn resolve(&self, pools: &Pools) -> (r: (usize, usize))
        requires
            pools.wf(),
            pools.span_node_ok(*self, pools.localizations@.len() as int),
        ensures
            r.0 as int == pools.loc_range(*self).0,
            r.1 as int == pools.loc_range(*self).1,
    {
        match self {
            Localization::Real { start, end } => (*start, *end),
            Localization::Provenance(parent) => pools.resolve_span(*parent),
            Localization::Merged(left, right) => {
                let (left_start, left_end) = pools.resolve_span(*left);
                let (right_start, right_end) = pools.resolve_span(*right);
                (
                    if left_start < right_start {
                        left_start
                    } else {
                        right_start
                    },
                    if left_end > right_end {
                        left_end
                    } else {
                        right_end
                    },
                )
            },
            Localization::Dummy => (0, 0),
        }
    }

    /// The number of source positions covered.
    pub fn len(&self, pools: &Pools) -> (r: usize)
        requires
            pools.wf(),
            pools.span_node_ok(*self, pools.localizations@.len() as int),
            pools.loc_range(*self).0 <= pools.loc_range(*self).1,
        ensures
            r == pools.loc_range(*self).1 - pools.loc_range(*self).0,
    {
        let (start, end) = self.resolve(pools);
        end - start
    }

    /// Whether the span covers no position.
    pub fn is_empty(&self, pools: &Pools) -> (r: bool)
        requires
            pools.wf(),
            pools.span_node_ok(*self, pools.localizations@.len() as int),
        ensures
            r == (pools.loc_range(*self).0 >= pools.loc_range(*self).1),
    {
        let (start, end) = self.resolve(pools);
        start >= end
    }
}

/// The value bound to `k`, first binding wins.
pub(crate) fn assoc_find<V>(s: &Vec<(InternedString, V)>, k: InternedString) -> (r: Option<usize>)
    ensures
        r is Some ==> r.unwrap() as int == assoc_index(s@, k),
        r is None ==> assoc_index(s@, k) == -1,
{
    let mut i: usize = 0;
    while i < s.len()
        invariant
            i <= s.len(),
            forall|j: int| 0 <= j < i ==> s@[j].0 != k,
        decreases s.len() - i,
    {
        if s[i].0 == k {
            proof {
                lemma_assoc_index_first(s@, k, i as int);
            }
            return Some(i);
        }
        i = i + 1;
    }
    proof {
        lemma_assoc_index_none(s@, k);
    }
    None
}

/// Binds `k` to `v`: the first binding of `k` is replaced, or a new one appended.
pub(crate) fn assoc_insert<V>(s: &mut Vec<(InternedString, V)>, k: InternedString, v: V)
    ensures
        final(s)@ == assoc_put(old(s)@, k, v),
{
    proof {
        lemma_assoc_index(s@, k);
    }
    match assoc_find(s, k) {
        Some(i) => {
            s.set(i, (k, v));
        },
        None => {
            s.push((k, v));
        },
    }
}

pub open spec fn same_scheme(a: TypeScheme, b: TypeScheme) -> bool {
    a.quantified@ == b.quantified@ && a.ty == b.ty
}

pub open spec fn same_constructor(a: ConstructorType, b: ConstructorType) -> bool {
    &&& a.outer_quantified_vars@ == b.outer_quantified_vars@
    &&& a.universal_vars@ == b.universal_vars@
    &&& a.existential_vars@ == b.existential_vars@
    &&& a.component_type == b.component_type
    &&& a.result_type == b.result_type
}

/// A copy of a list of type variables.
pub fn copy_vars(v: &Vec<TypeVarId>) -> (r: Vec<TypeVarId>)
    ensures
        r@ == v@,
{
    let mut r: Vec<TypeVarId> = Vec::new();
    let mut i: usize = 0;
    while i < v.len()
        invariant
            i <= v.len(),
            r@ == v@.subrange(0, i as int),
        decreases v.len() - i,
    {
        r.push(v[i]);
        i = i + 1;
        assert(r@ =~= v@.subrange(0, i as int));
    }
    assert(v@.subrange(0, v.len() as int) =~= v@);
    r
}

impl TypeScheme {
    /// A copy of this scheme.
    pub fn copy(&self) -> (r: Self)
        ensures
            same_scheme(r, *self),
    {
        TypeScheme { quantified: copy_vars(&self.quantified), ty: self.ty }
    }
}

impl ConstructorType {
    /// A copy of this constructor signature.
    pub fn copy(&self) -> (r: Self)
        ensures
            same_constructor(r, *self),
    {
        ConstructorType {
            outer_quantified_vars: copy_vars(&self.outer_quantified_vars),
            universal_vars: copy_vars(&self.universal_vars),
            existential_vars: copy_vars(&self.existential_vars),
            component_type: self.component_type,
            result_type: self.result_type,
        }
    }
}

impl Pools {
    /// Source range of span `id`: provenance is followed, merged ranges are joined.
    pub open spec fn span_range(&self, id: int) -> (int, int)
        decreases id,
    {
        if 0 <= id < self.localizations@.len() {
            match self.localizations@[id] {
                Localization::Real { start, end } => (start as int, end as int),
                Localization::Provenance(p) => if p.0 < id {
                    self.span_range(p.0 as int)
                } else {
                    (0, 0)
                },
                Localization::Merged(a, b) => if a.0 < id && b.0 < id {
                    let (ls, le) = self.span_range(a.0 as int);
                    let (rs, re) = self.span_range(b.0 as int);
                    (if ls < rs {
                        ls
                    } else {
                        rs
                    }, if le > re {
                        le
                    } else {
                        re
                    })
                } else {
                    (0, 0)
                },
                Localization::Dummy => (0, 0),
            }
        } else {
            (0, 0)
        }
    }

    /// Source range of a localization whose references are spans of these pools.
    pub open spec fn loc_range(&self, l: Localization) -> (int, int) {
        match l {
            Localization::Real { start, end } => (start as int, end as int),
            Localization::Provenance(p) => self.span_range(p.0 as int),
            Localization::Merged(a, b) => {
                let (ls, le) = self.span_range(a.0 as int);
                let (rs, re) = self.span_range(b.0 as int);
                (if ls < rs {
                    ls
                } else {
                    rs
                }, if le > re {
                    le
                } else {
                    re
                })
            },
            Localization::Dummy => (0, 0),
        }
    }

    pub open spec fn pushed_expr(&self, new: &Pools, e: Expr, id: ExprId) -> bool {
        &&& new.wf()
        &&& id.0 == self.exprs@.len()
        &&& new.exprs@ == self.exprs@.push(e)
        &&& *new == (Pools { exprs: new.exprs, ..*self })
        &&& self.grows_to(new)
    }

    pub open spec fn pushed_type(&self, new: &Pools, t: Type, id: TypeId) -> bool {
        &&& new.wf()
        &&& id.0 == self.types@.len()
        &&& new.types@ == self.types@.push(t)
        &&& *new == (Pools { types: new.types, ..*self })
        &&& self.grows_to(new)
        &&& self.only_types_grow(new)
    }

    pub open spec fn pushed_span(&self, new: &Pools, l: Localization, id: SpanId) -> bool {
        &&& new.wf()
        &&& id.0 == self.localizations@.len()
        &&& new.localizations@ == self.localizations@.push(l)
        &&& *new == (Pools { localizations: new.localizations, ..*self })
        &&& self.grows_to(new)
    }

    pub open spec fn valid_span(&self, s: SpanId) -> bool {
        s.0 < self.localizations@.len()
    }

    pub open spec fn all_valid_types(&self, ts: Seq<TypeId>) -> bool {
        forall|k: int| 0 <= k < ts.len() ==> #[trigger] ts[k].0 < self.types@.len()
    }

    /// Fresh pools holding the three cached base types and the builtin list constructors.
    pub fn new() -> (r: Self)
        ensures
            r.wf(),
            r.exprs@.len() == 0,
            r.function_implementations@.len() == 0,
            r.globals@.len() == 0,
            r.global_order@.len() == 0,
            r.types@[r.cached_int_type.0 as int] is Int,
            r.types@[r.cached_unit_type.0 as int] is Unit,
            r.types@[r.cached_empty_row_type.0 as int] is EmptyRow,
            has_builtin_lists(&r),
            r.interner.strings@.len() <= 4,
            r.localizations@.len() == 1 && r.localizations@[0] == Localization::Dummy,
            r.cached_int_type == TypeId(0) && r.cached_unit_type == TypeId(1) && r.cached_empty_row_type == TypeId(2),
            r.types@[0] == Type::Int(SpanId(0)) && r.types@[1] == Type::Unit(SpanId(0)) && r.types@[2] == Type::EmptyRow(SpanId(0)),
            r.next_type_var == 1,
    {
        let mut pools = Self {
            exprs: Vec::new(),
            patterns: Vec::new(),
            pattern_bindings: Vec::new(),
            nested_patterns: Vec::new(),
            types: Vec::new(),
            type_params: Vec::new(),
            row_fields: Vec::new(),
            record_fields: Vec::new(),
            record_pattern_fields: Vec::new(),
            kinds: Vec::new(),
            localizations: Vec::new(),
            globals: Vec::new(),
            constructors: Vec::new(),
            function_implementations: Vec::new(),
            global_order: Vec::new(),
            type_constructor_kinds: Vec::new(),
            next_type_var: 0,
            cached_int_type: TypeId(0),
            cached_unit_type: TypeId(1),
            cached_empty_row_type: TypeId(2),
            interner: StringInterner::new(),
        };
        pools.localizations.push(Localization::Dummy);
        pools.types.push(Type::Int(SpanId(0)));
        pools.types.push(Type::Unit(SpanId(0)));
        pools.types.push(Type::EmptyRow(SpanId(0)));
        assert(pools.types@[2] is EmptyRow);
        assert(pools.wf());
        pools.init_builtin_constructors();
        pools
    }

    // ----- expressions -----------------------------------------------------
    pub fn get_expr(&self, id: ExprId) -> (r: Expr)
        requires
            self.valid_expr(id),
        ensures
            r == self.exprs@[id.0 as int],
    {
        self.exprs[id.0]
    }

    pub fn get_expr_span(&self, expr_id: ExprId) -> (r: SpanId)
        requires
            self.valid_expr(expr_id),
        ensures
            r == self.exprs@[expr_id.0 as int].spec_span(),
    {
        self.exprs[expr_id.0].span()
    }

    /// The expressions whose span is `target_span`, in pool order.
    pub fn find_exprs_by_span(&self, target_span: SpanId) -> (r: Vec<ExprId>)
        ensures
            forall|k: int|
                0 <= k < r@.len() ==> r@[k].0 < self.exprs@.len() && self.exprs@[r@[k].0 as int].spec_span()
                    == target_span,
            forall|i: int|
                0 <= i < self.exprs@.len() && self.exprs@[i].spec_span() == target_span
                    ==> exists|k: int| 0 <= k < r@.len() && r@[k].0 == i,
            forall|a: int, b: int| 0 <= a < b < r@.len() ==> r@[a].0 < r@[b].0,
    {
        let mut r: Vec<ExprId> = Vec::new();
        let mut i: usize = 0;
        while i < self.exprs.len()
            invariant
                i <= self.exprs@.len(),
                forall|k: int|
                    0 <= k < r@.len() ==> r@[k].0 < i && self.exprs@[r@[k].0 as int].spec_span()
                        == target_span,
                forall|j: int|
                    0 <= j < i && self.exprs@[j].spec_span() == target_span ==> exists|k: int|
                        0 <= k < r@.len() && r@[k].0 == j,
                forall|a: int, b: int| 0 <= a < b < r@.len() ==> r@[a].0 < r@[b].0,
            decreases self.exprs@.len() - i,
        {
            if self.exprs[i].span() == target_span {
                let ghost old_r = r@;
                r.push(ExprId(i));
                assert forall|j: int|
                    0 <= j < i + 1 && self.exprs@[j].spec_span() == target_span implies exists|k: int|
                    0 <= k < r@.len() && r@[k].0 == j by {
                    if j < i {
                        let k = choose|k: int| 0 <= k < old_r.len() && old_r[k].0 == j;
                        assert(r@[k] == old_r[k]);
                    } else {
                        assert(r@[r@.len() - 1].0 == j);
                    }
                }
            }
            i = i + 1;
        }
        r
    }

    pub fn int_expr(&mut self, value: isize) -> (id: ExprId)
        requires
            old(self).wf(),
        ensures
            old(self).pushed_expr(final(self), Expr::Int(value, SpanId(0)), id),
    {
        self.alloc_expr(Expr::Int(value, SpanId(0)))
    }

    pub fn int_span(&mut self, value: isize, span: SpanId) -> (id: ExprId)
        requires
            old(self).wf(),
        ensures
            old(self).pushed_expr(final(self), Expr::Int(value, span), id),
    {
        self.alloc_expr(Expr::Int(value, span))
    }

    pub fn string_span(&mut self, value: InternedString, span: SpanId) -> (id: ExprId)
        requires
            old(self).wf(),
        ensures
            old(self).pushed_expr(final(self), Expr::String(value, span), id),
    {
        self.alloc_expr(Expr::String(value, span))
    }

    pub fn unit(&mut self) -> (id: ExprId)
        requires
            old(self).wf(),
        ensures
            old(self).pushed_expr(final(self), Expr::Unit(SpanId(0)), id),
    {
        self.alloc_expr(Expr::Unit(SpanId(0)))
    }

    pub fn unit_span(&mut self, span: SpanId) -> (id: ExprId)
        requires
            old(self).wf(),
        ensures
            old(self).pushed_expr(final(self), Expr::Unit(span), id),
    {
        self.alloc_expr(Expr::Unit(span))
    }

    pub fn expr_var(&mut self, debruijn_index: DeBruijnIndex, name: InternedString) -> (id: ExprId)
        requires
            old(self).wf(),
        ensures
            old(self).pushed_expr(final(self), Expr::Var(debruijn_index, name, SpanId(0)), id),
    {
        self.alloc_expr(Expr::Var(debruijn_index, name, SpanId(0)))
    }

    pub fn expr_var_span(
        &mut self,
        debruijn_index: DeBruijnIndex,
        name: InternedString,
        span: SpanId,
    ) -> (id: ExprId)
        requires
            old(self).wf(),
        ensures
            old(self).pushed_expr(final(self), Expr::Var(debruijn_index, name, span), id),
    {
        self.alloc_expr(Expr::Var(debruijn_index, name, span))
    }

    pub fn global_var(&mut self, global_idx: GlobalVarIdx, name: InternedString) -> (id: ExprId)
        requires
            old(self).wf(),
        ensures
            old(self).pushed_expr(final(self), Expr::GlobalVar(global_idx, name, SpanId(0)), id),
    {
        self.alloc_expr(Expr::GlobalVar(global_idx, name, SpanId(0)))
    }

    pub fn global_var_span(&mut self, global_idx: GlobalVarIdx, name: InternedString, span: SpanId) -> (id: ExprId)
        requires
            old(self).wf(),
        ensures
            old(self).pushed_expr(final(self), Expr::GlobalVar(global_idx, name, span), id),
    {
        self.alloc_expr(Expr::GlobalVar(global_idx, name, span))
    }

    pub fn call(&mut self, fun: ExprId, arg: ExprId) -> (id: ExprId)
        requires
            old(self).wf(),
            old(self).valid_expr(fun),
            old(self).valid_expr(arg),
        ensures
            old(self).pushed_expr(final(self), Expr::Call(fun, arg, SpanId(0)), id),
    {
        self.alloc_expr(Expr::Call(fun, arg, SpanId(0)))
    }

    pub fn call_span(&mut self, fun: ExprId, arg: ExprId, span: SpanId) -> (id: ExprId)
        requires
            old(self).wf(),
            old(self).valid_expr(fun),
            old(self).valid_expr(arg),
        ensures
            old(self).pushed_expr(final(self), Expr::Call(fun, arg, span), id),
    {
        self.alloc_expr(Expr::Call(fun, arg, span))
    }

    pub fn lambda(&mut self, body: ExprId, param_name: InternedString) -> (id: ExprId)
        requires
            old(self).wf(),
            old(self).valid_expr(body),
        ensures
            old(self).pushed_expr(final(self), Expr::Lambda(body, param_name, SpanId(0)), id),
    {
        self.alloc_expr(Expr::Lambda(body, param_name, SpanId(0)))
    }

    pub fn lambda_span(&mut self, body: ExprId, param_name: InternedString, span: SpanId) -> (id: ExprId)
        requires
            old(self).wf(),
            old(self).valid_expr(body),
        ensures
            old(self).pushed_expr(final(self), Expr::Lambda(body, param_name, span), id),
    {
        self.alloc_expr(Expr::Lambda(body, param_name, span))
    }

    pub fn let_expr(&mut self, value: ExprId, body: ExprId, var_name: InternedString) -> (id: ExprId)
        requires
            old(self).wf(),
            old(self).valid_expr(value),
            old(self).valid_expr(body),
        ensures
            old(self).pushed_expr(final(self), Expr::Let(value, body, var_name, SpanId(0)), id),
    {
        self.alloc_expr(Expr::Let(value, body, var_name, SpanId(0)))
    }

    pub fn let_expr_span(
        &mut self,
        value: ExprId,
        body: ExprId,
        var_name: InternedString,
        span: SpanId,
    ) -> (id: ExprId)
        requires
            old(self).wf(),
            old(self).valid_expr(value),
            old(self).valid_expr(body),
        ensures
            old(self).pushed_expr(final(self), Expr::Let(value, body, var_name, span), id),
    {
        self.alloc_expr(Expr::Let(value, body, var_name, span))
    }

    pub fn construct(&mut self, constructor: InternedString, arg: ExprId) -> (id: ExprId)
        requires
            old(self).wf(),
            old(self).valid_expr(arg),
        ensures
            old(self).pushed_expr(final(self), Expr::Construct(constructor, arg, SpanId(0)), id),
    {
        self.alloc_expr(Expr::Construct(constructor, arg, SpanId(0)))
    }

    pub fn construct_span(&mut self, constructor: InternedString, arg: ExprId, span: SpanId) -> (id: ExprId)
        requires
            old(self).wf(),
            old(self).valid_expr(arg),
        ensures
            old(self).pushed_expr(final(self), Expr::Construct(constructor, arg, span), id),
    {
        self.alloc_expr(Expr::Construct(constructor, arg, span))
    }

    /// `K ()`: a constructor applied to unit.
    pub fn construct_nullary(&mut self, constructor: InternedString) -> (id: ExprId)
        requires
            old(self).wf(),
        ensures
            final(self).wf(),
            old(self).grows_to(final(self)),
            id.0 == old(self).exprs@.len() + 1,
            final(self).exprs@ == old(self).exprs@.push(Expr::Unit(SpanId(0))).push(
                Expr::Construct(constructor, ExprId(old(self).exprs@.len() as usize), SpanId(0)),
            ),
    {
        let unit_arg = self.unit();
        self.construct(constructor, unit_arg)
    }

    pub fn match_expr(&mut self, expr: ExprId, start_id: PatternId, length: usize) -> (id: ExprId)
        requires
            old(self).wf(),
            old(self).expr_node_ok(
                Expr::Match(expr, MatchArms { start_id, length }, SpanId(0)),
                old(self).exprs@.len() as int,
            ),
        ensures
            old(self).pushed_expr(
                final(self),
                Expr::Match(expr, MatchArms { start_id, length }, SpanId(0)),
                id,
            ),
    {
        self.alloc_expr(Expr::Match(expr, MatchArms { start_id, length }, SpanId(0)))
    }

    pub fn match_expr_span(&mut self, expr: ExprId, start_id: PatternId, length: usize, span: SpanId) -> (id: ExprId)
        requires
            old(self).wf(),
            old(self).expr_node_ok(
                Expr::Match(expr, MatchArms { start_id, length }, span),
                old(self).exprs@.len() as int,
            ),
        ensures
            old(self).pushed_expr(
                final(self),
                Expr::Match(expr, MatchArms { start_id, length }, span),
                id,
            ),
    {
        self.alloc_expr(Expr::Match(expr, MatchArms { start_id, length }, span))
    }

    /// Appends record fields whose expressions exist; returns the first new slot.
    fn push_record_fields(&mut self, fields: &[RecordField]) -> (start: FieldId)
        requires
            old(self).wf(),
            forall|k: int| 0 <= k < fields@.len() ==> (#[trigger] fields@[k]).expr.0 < old(self).exprs@.len(),
        ensures
            final(self).wf(),
            start.0 == old(self).record_fields@.len(),
            final(self).record_fields@ == old(self).record_fields@ + fields@,
            *final(self) == (Pools { record_fields: final(self).record_fields, ..*old(self) }),
            old(self).grows_to(final(self)),
    {
        let start = FieldId(self.record_fields.len());
        let mut i: usize = 0;
        while i < fields.len()
            invariant
                i <= fields@.len(),
                self.wf(),
                self.record_fields@ == old(self).record_fields@ + fields@.subrange(0, i as int),
                *self == (Pools { record_fields: self.record_fields, ..*old(self) }),
                old(self).grows_to(self),
                forall|k: int| 0 <= k < fields@.len() ==> (#[trigger] fields@[k]).expr.0 < old(self).exprs@.len(),
            decreases fields@.len() - i,
        {
            let ghost before = *self;
            self.record_fields.push(fields[i]);
            proof {
                before.lemma_tables_grow(self);
                before.lemma_wf_extend(self);
            }
            i = i + 1;
            assert(self.record_fields@ =~= old(self).record_fields@ + fields@.subrange(0, i as int));
        }
        assert(fields@.subrange(0, fields@.len() as int) =~= fields@);
        start
    }

    pub fn record_expr(&mut self, fields: &[RecordField]) -> (id: ExprId)
        requires
            old(self).wf(),
            forall|k: int| 0 <= k < fields@.len() ==> (#[trigger] fields@[k]).expr.0 < old(self).exprs@.len(),
        ensures
            final(self).wf(),
            old(self).grows_to(final(self)),
            id.0 == old(self).exprs@.len(),
            final(self).record_fields@ == old(self).record_fields@ + fields@,
            final(self).exprs@ == old(self).exprs@.push(
                Expr::Record(FieldId(old(self).record_fields@.len() as usize), fields@.len() as usize, SpanId(0)),
            ),
    {
        self.record_expr_span(fields, SpanId(0))
    }

    pub fn record_expr_span(&mut self, fields: &[RecordField], span: SpanId) -> (id: ExprId)
        requires
            old(self).wf(),
            forall|k: int| 0 <= k < fields@.len() ==> (#[trigger] fields@[k]).expr.0 < old(self).exprs@.len(),
        ensures
            final(self).wf(),
            old(self).grows_to(final(self)),
            id.0 == old(self).exprs@.len(),
            final(self).record_fields@ == old(self).record_fields@ + fields@,
            final(self).exprs@ == old(self).exprs@.push(
                Expr::Record(FieldId(old(self).record_fields@.len() as usize), fields@.len() as usize, span),
            ),
    {
        let start = self.push_record_fields(fields);
        let e = Expr::Record(start, fields.len(), span);
        assert(self.expr_node_ok(e, self.exprs@.len() as int)) by {
            assert forall|k: int| start.0 <= k < start.0 + fields@.len() implies (#[trigger] self.record_fields@[k]).expr.0 < self.exprs@.len() by {
                assert(self.record_fields@[k] == fields@[k - start.0]);
            }
        }
        self.alloc_expr(e)
    }

    pub fn project_expr(&mut self, record: ExprId, field: InternedString) -> (id: ExprId)
        requires
            old(self).wf(),
            old(self).valid_expr(record),
        ensures
            old(self).pushed_expr(final(self), Expr::Project(record, field, SpanId(0)), id),
    {
        self.alloc_expr(Expr::Project(record, field, SpanId(0)))
    }

    pub fn project_expr_span(&mut self, record: ExprId, field: InternedString, span: SpanId) -> (id: ExprId)
        requires
            old(self).wf(),
            old(self).valid_expr(record),
        ensures
            old(self).pushed_expr(final(self), Expr::Project(record, field, span), id),
    {
        self.alloc_expr(Expr::Project(record, field, span))
    }

    pub fn extend_expr(&mut self, record: ExprId, fields: &[RecordField]) -> (id: ExprId)
        requires
            old(self).wf(),
            old(self).valid_expr(record),
            forall|k: int| 0 <= k < fields@.len() ==> (#[trigger] fields@[k]).expr.0 < old(self).exprs@.len(),
        ensures
            final(self).wf(),
            old(self).grows_to(final(self)),
            id.0 == old(self).exprs@.len(),
            final(self).record_fields@ == old(self).record_fields@ + fields@,
            final(self).exprs@ == old(self).exprs@.push(
                Expr::Extend(record, FieldId(old(self).record_fields@.len() as usize), fields@.len() as usize, SpanId(0)),
            ),
    {
        self.extend_expr_span(record, fields, SpanId(0))
    }

    pub fn extend_expr_span(&mut self, record: ExprId, fields: &[RecordField], span: SpanId) -> (id: ExprId)
        requires
            old(self).wf(),
            old(self).valid_expr(record),
            forall|k: int| 0 <= k < fields@.len() ==> (#[trigger] fields@[k]).expr.0 < old(self).exprs@.len(),
        ensures
            final(self).wf(),
            old(self).grows_to(final(self)),
            id.0 == old(self).exprs@.len(),
            final(self).record_fields@ == old(self).record_fields@ + fields@,
            final(self).exprs@ == old(self).exprs@.push(
                Expr::Extend(record, FieldId(old(self).record_fields@.len() as usize), fields@.len() as usize, span),
            ),
    {
        let start = self.push_record_fields(fields);
        let e = Expr::Extend(record, start, fields.len(), span);
        assert(self.expr_node_ok(e, self.exprs@.len() as int)) by {
            assert forall|k: int| start.0 <= k < start.0 + fields@.len() implies (#[trigger] self.record_fields@[k]).expr.0 < self.exprs@.len() by {
                assert(self.record_fields@[k] == fields@[k - start.0]);
            }
        }
        self.alloc_expr(e)
    }

    // ----- patterns --------------------------------------------------------
    pub fn alloc_pattern(&mut self, pattern: Pattern, body: ExprId) -> (id: PatternId)
        requires
            old(self).wf(),
            old(self).valid_expr(body),
            old(self).pattern_ok(pattern),
        ensures
            final(self).wf(),
            old(self).grows_to(final(self)),
            id.0 == old(self).patterns@.len(),
            final(self).patterns@ == old(self).patterns@.push(MatchCase { pattern, body }),
            *final(self) == (Pools { patterns: final(self).patterns, ..*old(self) }),
    {
        let id = PatternId(self.patterns.len());
        self.patterns.push(MatchCase { pattern, body });
        proof {
            old(self).lemma_tables_grow(self);
            old(self).lemma_wf_extend(self);
        }
        id
    }

    pub fn alloc_pattern_binding(&mut self, binding: PatternBinding) -> (id: PatternId)
        requires
            old(self).wf(),
        ensures
            final(self).wf(),
            old(self).grows_to(final(self)),
            id.0 == old(self).pattern_bindings@.len(),
            final(self).pattern_bindings@ == old(self).pattern_bindings@.push(binding),
            *final(self) == (Pools { pattern_bindings: final(self).pattern_bindings, ..*old(self) }),
    {
        let id = PatternId(self.pattern_bindings.len());
        self.pattern_bindings.push(binding);
        proof {
            old(self).lemma_tables_grow(self);
            old(self).lemma_wf_extend(self);
        }
        id
    }

    pub fn alloc_nested_pattern(&mut self, pattern: Pattern) -> (id: PatternId)
        requires
            old(self).wf(),
            old(self).pattern_ok(pattern),
        ensures
            final(self).wf(),
            old(self).grows_to(final(self)),
            id.0 == old(self).nested_patterns@.len(),
            final(self).nested_patterns@ == old(self).nested_patterns@.push(pattern),
            *final(self) == (Pools { nested_patterns: final(self).nested_patterns, ..*old(self) }),
    {
        let id = PatternId(self.nested_patterns.len());
        self.nested_patterns.push(pattern);
        proof {
            old(self).lemma_tables_grow(self);
            old(self).lemma_wf_extend(self);
        }
        id
    }

    /// Appends a run of nested patterns; returns its first slot and length.
    pub fn alloc_nested_patterns(&mut self, patterns: &[Pattern]) -> (r: (PatternId, usize))
        requires
            old(self).wf(),
            forall|k: int| 0 <= k < patterns@.len() ==> old(self).pattern_ok(#[trigger] patterns@[k]),
        ensures
            final(self).wf(),
            old(self).grows_to(final(self)),
            r.0.0 == old(self).nested_patterns@.len(),
            r.1 == patterns@.len(),
            final(self).nested_patterns@ == old(self).nested_patterns@ + patterns@,
            *final(self) == (Pools { nested_patterns: final(self).nested_patterns, ..*old(self) }),
    {
        let start_id = PatternId(self.nested_patterns.len());
        let mut i: usize = 0;
        while i < patterns.len()
            invariant
                i <= patterns@.len(),
                self.wf(),
                self.nested_patterns@ == old(self).nested_patterns@ + patterns@.subrange(0, i as int),
                *self == (Pools { nested_patterns: self.nested_patterns, ..*old(self) }),
                old(self).grows_to(self),
                forall|k: int| 0 <= k < patterns@.len() ==> old(self).pattern_ok(#[trigger] patterns@[k]),
            decreases patterns@.len() - i,
        {
            let ghost before = *self;
            self.nested_patterns.push(patterns[i]);
            proof {
                before.lemma_tables_grow(self);
                before.lemma_wf_extend(self);
            }
            i = i + 1;
            assert(self.nested_patterns@ =~= old(self).nested_patterns@ + patterns@.subrange(0, i as int));
        }
        assert(patterns@.subrange(0, patterns@.len() as int) =~= patterns@);
        (start_id, patterns.len())
    }

    /// Appends a run of record pattern fields; returns its first slot.
    pub fn alloc_record_pattern_fields(&mut self, fields: &[RecordPatternField]) -> (start: FieldId)
        requires
            old(self).wf(),
            forall|k: int| 0 <= k < fields@.len() ==> old(self).pattern_ok(#[trigger] fields@[k].pattern),
        ensures
            final(self).wf(),
            old(self).grows_to(final(self)),
            start.0 == old(self).record_pattern_fields@.len(),
            final(self).record_pattern_fields@ == old(self).record_pattern_fields@ + fields@,
            *final(self) == (Pools { record_pattern_fields: final(self).record_pattern_fields, ..*old(self) }),
    {
        let start = FieldId(self.record_pattern_fields.len());
        let mut i: usize = 0;
        while i < fields.len()
            invariant
                i <= fields@.len(),
                self.wf(),
                self.record_pattern_fields@ == old(self).record_pattern_fields@ + fields@.subrange(0, i as int),
                *self == (Pools { record_pattern_fields: self.record_pattern_fields, ..*old(self) }),
                old(self).grows_to(self),
                forall|k: int| 0 <= k < fields@.len() ==> old(self).pattern_ok(#[trigger] fields@[k].pattern),
            decreases fields@.len() - i,
        {
            let ghost before = *self;
            self.record_pattern_fields.push(fields[i]);
            proof {
                before.lemma_tables_grow(self);
                before.lemma_wf_extend(self);
            }
            i = i + 1;
            assert(self.record_pattern_fields@ =~= old(self).record_pattern_fields@ + fields@.subrange(0, i as int));
        }
        assert(fields@.subrange(0, fields@.len() as int) =~= fields@);
        start
    }

    pub fn get_pattern_case(&self, id: PatternId) -> (r: MatchCase)
        requires
            id.0 < self.patterns@.len(),
        ensures
            r == self.patterns@[id.0 as int],
    {
        self.patterns[id.0]
    }

    pub fn get_pattern_bindings(&self, start_id: PatternId, length: usize) -> (r: Vec<PatternBinding>)
        requires
            start_id.0 + length <= self.pattern_bindings@.len(),
        ensures
            r@ == self.pattern_bindings@.subrange(start_id.0 as int, start_id.0 + length),
    {
        let mut r: Vec<PatternBinding> = Vec::new();
        let n = self.pattern_bindings.len();
        let mut i: usize = 0;
        while i < length
            invariant
                i <= length,
                n == self.pattern_bindings@.len(),
                start_id.0 + length <= self.pattern_bindings@.len(),
                r@ == self.pattern_bindings@.subrange(start_id.0 as int, start_id.0 + i),
            decreases length - i,
        {
            r.push(self.pattern_bindings[start_id.0 + i]);
            i = i + 1;
            assert(r@ =~= self.pattern_bindings@.subrange(start_id.0 as int, start_id.0 + i));
        }
        r
    }

    pub fn get_nested_patterns(&self, start: usize, len: usize) -> (r: Vec<Pattern>)
        requires
            start + len <= self.nested_patterns@.len(),
        ensures
            r@ == self.nested_patterns@.subrange(start as int, start + len),
    {
        let mut r: Vec<Pattern> = Vec::new();
        let n = self.nested_patterns.len();
        let mut i: usize = 0;
        while i < len
            invariant
                i <= len,
                n == self.nested_patterns@.len(),
                start + len <= self.nested_patterns@.len(),
                r@ == self.nested_patterns@.subrange(start as int, start + i),
            decreases len - i,
        {
            r.push(self.nested_patterns[start + i]);
            i = i + 1;
            assert(r@ =~= self.nested_patterns@.subrange(start as int, start + i));
        }
        r
    }

    pub fn get_record_pattern_fields(&self, start: usize, len: usize) -> (r: Vec<RecordPatternField>)
        requires
            start + len <= self.record_pattern_fields@.len(),
        ensures
            r@ == self.record_pattern_fields@.subrange(start as int, start + len),
    {
        let mut r: Vec<RecordPatternField> = Vec::new();
        let n = self.record_pattern_fields.len();
        let mut i: usize = 0;
        while i < len
            invariant
                i <= len,
                n == self.record_pattern_fields@.len(),
                start + len <= self.record_pattern_fields@.len(),
                r@ == self.record_pattern_fields@.subrange(start as int, start + i),
            decreases len - i,
        {
            r.push(self.record_pattern_fields[start + i]);
            i = i + 1;
            assert(r@ =~= self.record_pattern_fields@.subrange(start as int, start + i));
        }
        r
    }

    pub fn get_record_fields(&self, start: usize, len: usize) -> (r: Vec<RecordField>)
        requires
            start + len <= self.record_fields@.len(),
        ensures
            r@ == self.record_fields@.subrange(start as int, start + len),
    {
        let mut r: Vec<RecordField> = Vec::new();
        let n = self.record_fields.len();
        let mut i: usize = 0;
        while i < len
            invariant
                i <= len,
                n == self.record_fields@.len(),
                start + len <= self.record_fields@.len(),
                r@ == self.record_fields@.subrange(start as int, start + i),
            decreases len - i,
        {
            r.push(self.record_fields[start + i]);
            i = i + 1;
            assert(r@ =~= self.record_fields@.subrange(start as int, start + i));
        }
        r
    }

    pub fn get_data_type_params(&self, start: usize, len: usize) -> (r: Vec<TypeId>)
        requires
            start + len <= self.type_params@.len(),
        ensures
            r@ == self.type_params@.subrange(start as int, start + len),
    {
        let mut r: Vec<TypeId> = Vec::new();
        let n = self.type_params.len();
        let mut i: usize = 0;
        while i < len
            invariant
                i <= len,
                n == self.type_params@.len(),
                start + len <= self.type_params@.len(),
                r@ == self.type_params@.subrange(start as int, start + i),
            decreases len - i,
        {
            r.push(self.type_params[start + i]);
            i = i + 1;
            assert(r@ =~= self.type_params@.subrange(start as int, start + i));
        }
        r
    }

    pub fn get_row_fields(&self, start: usize, len: usize) -> (r: Vec<RowField>)
        requires
            start + len <= self.row_fields@.len(),
        ensures
            r@ == self.row_fields@.subrange(start as int, start + len),
    {
        let mut r: Vec<RowField> = Vec::new();
        let n = self.row_fields.len();
        let mut i: usize = 0;
        while i < len
            invariant
                i <= len,
                n == self.row_fields@.len(),
                start + len <= self.row_fields@.len(),
                r@ == self.row_fields@.subrange(start as int, start + i),
            decreases len - i,
        {
            r.push(self.row_fields[start + i]);
            i = i + 1;
            assert(r@ =~= self.row_fields@.subrange(start as int, start + i));
        }
        r
    }

    // ----- spans -----------------------------------------------------------
    pub fn localization(&mut self, start: usize, end: usize) -> (id: SpanId)
        requires
            old(self).wf(),
        ensures
            old(self).pushed_span(final(self), Localization::Real { start, end }, id),
    {
        self.alloc_localization(Localization::Real { start, end })
    }

    pub fn dummy_span(&self) -> (r: SpanId)
        ensures
            r.0 == 0,
    {
        SpanId(0)
    }

    pub fn span_provenance(&mut self, parent: SpanId) -> (id: SpanId)
        requires
            old(self).wf(),
            old(self).valid_span(parent),
        ensures
            old(self).pushed_span(final(self), Localization::Provenance(parent), id),
    {
        self.alloc_localization(Localization::Provenance(parent))
    }

    pub fn span_merged(&mut self, left: SpanId, right: SpanId) -> (id: SpanId)
        requires
            old(self).wf(),
            old(self).valid_span(left),
            old(self).valid_span(right),
        ensures
            old(self).pushed_span(final(self), Localization::Merged(left, right), id),
    {
        self.alloc_localization(Localization::Merged(left, right))
    }

    pub fn span_dummy(&mut self) -> (id: SpanId)
        requires
            old(self).wf(),
        ensures
            old(self).pushed_span(final(self), Localization::Dummy, id),
    {
        self.alloc_localization(Localization::Dummy)
    }

    pub fn get_localization(&self, id: SpanId) -> (r: Localization)
        requires
            self.valid_span(id),
        ensures
            r == self.localizations@[id.0 as int],
    {
        self.localizations[id.0]
    }

    /// The source range of a span.
    pub fn resolve_span(&self, span_id: SpanId) -> (r: (usize, usize))
        requires
            self.wf(),
            self.valid_span(span_id),
        ensures
            r.0 as int == self.span_range(span_id.0 as int).0,
            r.1 as int == self.span_range(span_id.0 as int).1,
        decreases span_id.0,
    {
        let l = self.localizations[span_id.0];
        assert(self.span_node_ok(self.localizations@[span_id.0 as int], span_id.0 as int));
        match l {
            Localization::Real { start, end } => (start, end),
            Localization::Provenance(parent) => self.resolve_span(parent),
            Localization::Merged(left, right) => {
                let (left_start, left_end) = self.resolve_span(left);
                let (right_start, right_end) = self.resolve_span(right);
                (
                    if left_start < right_start {
                        left_start
                    } else {
                        right_start
                    },
                    if left_end > right_end {
                        left_end
                    } else {
                        right_end
                    },
                )
            },
            Localization::Dummy => (0, 0),
        }
    }
}


impl Pools {
    // ----- types -----------------------------------------------------------
    pub fn get_type(&self, id: TypeId) -> (r: Type)
        requires
            self.valid_type(id),
        ensures
            r == self.types@[id.0 as int],
    {
        self.types[id.0]
    }

    /// Appends parameter slots holding existing types; returns the first slot.
    fn push_type_params(&mut self, params: &[TypeId]) -> (start: TypeId)
        requires
            old(self).wf(),
            old(self).all_valid_types(params@),
        ensures
            final(self).wf(),
            start.0 == old(self).type_params@.len(),
            final(self).type_params@ == old(self).type_params@ + params@,
            *final(self) == (Pools { type_params: final(self).type_params, ..*old(self) }),
            old(self).grows_to(final(self)),
            old(self).only_types_grow(final(self)),
    {
        let start = TypeId(self.type_params.len());
        let mut i: usize = 0;
        while i < params.len()
            invariant
                i <= params@.len(),
                self.wf(),
                self.type_params@ == old(self).type_params@ + params@.subrange(0, i as int),
                *self == (Pools { type_params: self.type_params, ..*old(self) }),
                old(self).grows_to(self),
                old(self).only_types_grow(self),
                old(self).all_valid_types(params@),
            decreases params@.len() - i,
        {
            let ghost before = *self;
            self.type_params.push(params[i]);
            proof {
                before.lemma_types_grow_wf(self);
            }
            i = i + 1;
            assert(self.type_params@ =~= old(self).type_params@ + params@.subrange(0, i as int));
        }
        assert(params@.subrange(0, params@.len() as int) =~= params@);
        start
    }

    /// Appends row fields whose types exist; returns the first slot.
    fn push_row_fields(&mut self, fields: &[RowField]) -> (start: FieldId)
        requires
            old(self).wf(),
            forall|k: int| 0 <= k < fields@.len() ==> (#[trigger] fields@[k]).field_type.0 < old(self).types@.len(),
        ensures
            final(self).wf(),
            start.0 == old(self).row_fields@.len(),
            final(self).row_fields@ == old(self).row_fields@ + fields@,
            *final(self) == (Pools { row_fields: final(self).row_fields, ..*old(self) }),
            old(self).grows_to(final(self)),
            old(self).only_types_grow(final(self)),
    {
        let start = FieldId(self.row_fields.len());
        let mut i: usize = 0;
        while i < fields.len()
            invariant
                i <= fields@.len(),
                self.wf(),
                self.row_fields@ == old(self).row_fields@ + fields@.subrange(0, i as int),
                *self == (Pools { row_fields: self.row_fields, ..*old(self) }),
                old(self).grows_to(self),
                old(self).only_types_grow(self),
                forall|k: int| 0 <= k < fields@.len() ==> (#[trigger] fields@[k]).field_type.0 < old(self).types@.len(),
            decreases fields@.len() - i,
        {
            let ghost before = *self;
            self.row_fields.push(fields[i]);
            proof {
                before.lemma_types_grow_wf(self);
            }
            i = i + 1;
            assert(self.row_fields@ =~= old(self).row_fields@ + fields@.subrange(0, i as int));
        }
        assert(fields@.subrange(0, fields@.len() as int) =~= fields@);
        start
    }

    /// The node a data type or type application with these parameters gets.
    pub open spec fn params_node_ok_after(&self, params: Seq<TypeId>) -> bool {
        self.all_valid_types(params)
    }

    pub open spec fn pushed_params_type(&self, new: &Pools, t: Type, params: Seq<TypeId>, id: TypeId) -> bool {
        &&& new.wf()
        &&& id.0 == self.types@.len()
        &&& new.types@ == self.types@.push(t)
        &&& new.type_params@ == self.type_params@ + params
        &&& *new == (Pools { types: new.types, type_params: new.type_params, ..*self })
        &&& self.grows_to(new)
        &&& self.only_types_grow(new)
    }

    pub fn data_type(&mut self, name: InternedString, params: &[TypeId]) -> (id: TypeId)
        requires
            old(self).wf(),
            old(self).all_valid_types(params@),
        ensures
            old(self).pushed_params_type(
                final(self),
                Type::DataType(name, TypeId(old(self).type_params@.len() as usize), params@.len() as usize, SpanId(0)),
                params@,
                id,
            ),
    {
        self.data_type_span(name, params, SpanId(0))
    }

    pub fn data_type_span(&mut self, name: InternedString, params: &[TypeId], span: SpanId) -> (id: TypeId)
        requires
            old(self).wf(),
            old(self).all_valid_types(params@),
        ensures
            old(self).pushed_params_type(
                final(self),
                Type::DataType(name, TypeId(old(self).type_params@.len() as usize), params@.len() as usize, span),
                params@,
                id,
            ),
    {
        let start = self.push_type_params(params);
        let t = Type::DataType(name, start, params.len(), span);
        assert(self.type_node_ok(t, self.types@.len() as int)) by {
            assert forall|k: int| start.0 <= k < start.0 + params@.len() implies (#[trigger] self.type_params@[k]).0 < self.types@.len() by {
                assert(self.type_params@[k] == params@[k - start.0]);
            }
        }
        self.alloc_type(t)
    }

    pub fn data_type_simple(&mut self, name: InternedString) -> (id: TypeId)
        requires
            old(self).wf(),
        ensures
            old(self).pushed_params_type(
                final(self),
                Type::DataType(name, TypeId(old(self).type_params@.len() as usize), 0, SpanId(0)),
                Seq::empty(),
                id,
            ),
    {
        let empty: Vec<TypeId> = Vec::new();
        assert(empty@ =~= Seq::<TypeId>::empty());
        self.data_type(name, empty.as_slice())
    }

    pub fn type_app(&mut self, var_id: usize, params: &[TypeId]) -> (id: TypeId)
        requires
            old(self).wf(),
            old(self).all_valid_types(params@),
        ensures
            old(self).pushed_params_type(
                final(self),
                Type::TypeApp(TypeVarId(var_id, None), TypeId(old(self).type_params@.len() as usize), params@.len() as usize, SpanId(0)),
                params@,
                id,
            ),
    {
        self.type_app_span(var_id, params, SpanId(0))
    }

    pub fn type_app_span(&mut self, var_id: usize, params: &[TypeId], span: SpanId) -> (id: TypeId)
        requires
            old(self).wf(),
            old(self).all_valid_types(params@),
        ensures
            old(self).pushed_params_type(
                final(self),
                Type::TypeApp(TypeVarId(var_id, None), TypeId(old(self).type_params@.len() as usize), params@.len() as usize, span),
                params@,
                id,
            ),
    {
        let start = self.push_type_params(params);
        let t = Type::TypeApp(TypeVarId::new(var_id), start, params.len(), span);
        assert(self.type_node_ok(t, self.types@.len() as int)) by {
            assert forall|k: int| start.0 <= k < start.0 + params@.len() implies (#[trigger] self.type_params@[k]).0 < self.types@.len() by {
                assert(self.type_params@[k] == params@[k - start.0]);
            }
        }
        self.alloc_type(t)
    }

    pub fn type_int(&mut self) -> (id: TypeId)
        requires
            old(self).wf(),
        ensures
            old(self).pushed_type(final(self), Type::Int(SpanId(0)), id),
    {
        self.alloc_type(Type::Int(SpanId(0)))
    }

    pub fn type_int_span(&mut self, span: SpanId) -> (id: TypeId)
        requires
            old(self).wf(),
        ensures
            old(self).pushed_type(final(self), Type::Int(span), id),
    {
        self.alloc_type(Type::Int(span))
    }

    pub fn type_string(&mut self) -> (id: TypeId)
        requires
            old(self).wf(),
        ensures
            old(self).pushed_type(final(self), Type::String(SpanId(0)), id),
    {
        self.alloc_type(Type::String(SpanId(0)))
    }

    pub fn type_string_span(&mut self, span: SpanId) -> (id: TypeId)
        requires
            old(self).wf(),
        ensures
            old(self).pushed_type(final(self), Type::String(span), id),
    {
        self.alloc_type(Type::String(span))
    }

    pub fn type_unit(&mut self) -> (id: TypeId)
        requires
            old(self).wf(),
        ensures
            old(self).pushed_type(final(self), Type::Unit(SpanId(0)), id),
    {
        self.alloc_type(Type::Unit(SpanId(0)))
    }

    /// A unit type at `span`; the shared cached node for the dummy span.
    pub fn type_unit_span(&mut self, span: SpanId) -> (id: TypeId)
        requires
            old(self).wf(),
        ensures
            span.0 == 0 ==> *final(self) == *old(self) && id == old(self).cached_unit_type,
            span.0 != 0 ==> old(self).pushed_type(final(self), Type::Unit(span), id),
            final(self).wf(),
            old(self).only_types_grow(final(self)),
    {
        if span.0 == 0 {
            self.cached_unit_type
        } else {
            self.alloc_type(Type::Unit(span))
        }
    }

    pub fn type_var(&mut self, index: usize) -> (id: TypeId)
        requires
            old(self).wf(),
        ensures
            old(self).pushed_type(final(self), Type::Var(TypeVarId(index, None), SpanId(0)), id),
    {
        self.alloc_type(Type::Var(TypeVarId::new(index), SpanId(0)))
    }

    pub fn type_var_span(&mut self, index: usize, span: SpanId) -> (id: TypeId)
        requires
            old(self).wf(),
        ensures
            old(self).pushed_type(final(self), Type::Var(TypeVarId(index, None), span), id),
    {
        self.alloc_type(Type::Var(TypeVarId::new(index), span))
    }

    /// A type variable numbered with the next unused number.
    pub fn fresh_type_var(&mut self) -> (id: TypeId)
        requires
            old(self).wf(),
            old(self).next_type_var < usize::MAX,
        ensures
            final(self).wf(),
            id.0 == old(self).types@.len(),
            final(self).types@ == old(self).types@.push(Type::Var(TypeVarId(old(self).next_type_var, None), SpanId(0))),
            final(self).next_type_var == old(self).next_type_var + 1,
            *final(self) == (Pools { types: final(self).types, next_type_var: final(self).next_type_var, ..*old(self) }),
            old(self).grows_to(final(self)),
            old(self).only_types_grow(final(self)),
    {
        let var = self.next_type_var;
        self.next_type_var = self.next_type_var + 1;
        proof {
            old(self).lemma_tables_grow(self);
            old(self).lemma_wf_extend(self);
        }
        self.alloc_type(Type::Var(TypeVarId::new(var), SpanId(0)))
    }

    pub fn fresh_type_var_span(&mut self, span: SpanId) -> (id: TypeId)
        requires
            old(self).wf(),
            old(self).next_type_var < usize::MAX,
        ensures
            final(self).wf(),
            id.0 == old(self).types@.len(),
            final(self).types@ == old(self).types@.push(Type::Var(TypeVarId(old(self).next_type_var, None), span)),
            final(self).next_type_var == old(self).next_type_var + 1,
            *final(self) == (Pools { types: final(self).types, next_type_var: final(self).next_type_var, ..*old(self) }),
            old(self).grows_to(final(self)),
            old(self).only_types_grow(final(self)),
    {
        let var = self.next_type_var;
        self.next_type_var = self.next_type_var + 1;
        proof {
            old(self).lemma_tables_grow(self);
            old(self).lemma_wf_extend(self);
        }
        self.type_var_span(var, span)
    }

    pub fn type_arrow(&mut self, from: TypeId, to: TypeId) -> (id: TypeId)
        requires
            old(self).wf(),
            old(self).valid_type(from),
            old(self).valid_type(to),
        ensures
            old(self).pushed_type(final(self), Type::Arrow(from, to, SpanId(0)), id),
    {
        self.alloc_type(Type::Arrow(from, to, SpanId(0)))
    }

    pub fn type_arrow_span(&mut self, from: TypeId, to: TypeId, span: SpanId) -> (id: TypeId)
        requires
            old(self).wf(),
            old(self).valid_type(from),
            old(self).valid_type(to),
        ensures
            old(self).pushed_type(final(self), Type::Arrow(from, to, span), id),
    {
        self.alloc_type(Type::Arrow(from, to, span))
    }

    /// The shared empty row.
    pub fn type_empty_row(&mut self) -> (id: TypeId)
        ensures
            *final(self) == *old(self),
            id == old(self).cached_empty_row_type,
    {
        self.cached_empty_row_type
    }

    pub fn type_empty_row_span(&mut self, span: SpanId) -> (id: TypeId)
        requires
            old(self).wf(),
        ensures
            span.0 == 0 ==> *final(self) == *old(self) && id == old(self).cached_empty_row_type,
            span.0 != 0 ==> old(self).pushed_type(final(self), Type::EmptyRow(span), id),
            final(self).wf(),
            old(self).only_types_grow(final(self)),
    {
        if span.0 == 0 {
            self.cached_empty_row_type
        } else {
            self.alloc_type(Type::EmptyRow(span))
        }
    }

    pub open spec fn pushed_row_type(&self, new: &Pools, t: Type, fields: Seq<RowField>, id: TypeId) -> bool {
        &&& new.wf()
        &&& id.0 == self.types@.len()
        &&& new.types@ == self.types@.push(t)
        &&& new.row_fields@ == self.row_fields@ + fields
        &&& *new == (Pools { types: new.types, row_fields: new.row_fields, ..*self })
        &&& self.grows_to(new)
        &&& self.only_types_grow(new)
    }

    pub open spec fn fields_valid(&self, fields: Seq<RowField>) -> bool {
        forall|k: int| 0 <= k < fields.len() ==> (#[trigger] fields[k]).field_type.0 < self.types@.len()
    }

    pub fn type_row(&mut self, fields: &[RowField], rest: TypeId) -> (id: TypeId)
        requires
            old(self).wf(),
            old(self).fields_valid(fields@),
            old(self).valid_type(rest),
        ensures
            old(self).pushed_row_type(
                final(self),
                Type::Row(FieldId(old(self).row_fields@.len() as usize), fields@.len() as usize, rest, SpanId(0)),
                fields@,
                id,
            ),
    {
        self.type_row_span(fields, rest, SpanId(0))
    }

    pub fn type_row_span(&mut self, fields: &[RowField], rest: TypeId, span: SpanId) -> (id: TypeId)
        requires
            old(self).wf(),
            old(self).fields_valid(fields@),
            old(self).valid_type(rest),
        ensures
            old(self).pushed_row_type(
                final(self),
                Type::Row(FieldId(old(self).row_fields@.len() as usize), fields@.len() as usize, rest, span),
                fields@,
                id,
            ),
    {
        let start = self.push_row_fields(fields);
        let t = Type::Row(start, fields.len(), rest, span);
        assert(self.type_node_ok(t, self.types@.len() as int)) by {
            assert forall|k: int| start.0 <= k < start.0 + fields@.len() implies (#[trigger] self.row_fields@[k]).field_type.0 < self.types@.len() by {
                assert(self.row_fields@[k] == fields@[k - start.0]);
            }
        }
        self.alloc_type(t)
    }

    // ----- kinds -----------------------------------------------------------
    pub fn kind_star(&mut self) -> (id: KindId)
        requires
            old(self).wf(),
        ensures
            final(self).wf(),
            id.0 == old(self).kinds@.len(),
            final(self).kinds@ == old(self).kinds@.push(Kind::Star),
            *final(self) == (Pools { kinds: final(self).kinds, ..*old(self) }),
            old(self).grows_to(final(self)),
    {
        self.alloc_kind(Kind::Star)
    }

    pub fn kind_arrow(&mut self, from: KindId, to: KindId) -> (id: KindId)
        requires
            old(self).wf(),
            from.0 < old(self).kinds@.len(),
            to.0 < old(self).kinds@.len(),
        ensures
            final(self).wf(),
            id.0 == old(self).kinds@.len(),
            final(self).kinds@ == old(self).kinds@.push(Kind::Arrow(from, to)),
            *final(self) == (Pools { kinds: final(self).kinds, ..*old(self) }),
            old(self).grows_to(final(self)),
    {
        self.alloc_kind(Kind::Arrow(from, to))
    }

    pub fn get_kind(&self, id: KindId) -> (r: Kind)
        requires
            id.0 < self.kinds@.len(),
        ensures
            r == self.kinds@[id.0 as int],
    {
        self.kinds[id.0]
    }

    /// `* -> ... -> *` with one arrow per type parameter.
    pub fn compute_data_type_kind(&mut self, type_params: &[InternedString]) -> (id: KindId)
        requires
            old(self).wf(),
        ensures
            final(self).wf(),
            old(self).grows_to(final(self)),
            id.0 < final(self).kinds@.len(),
            final(self).kinds@.len() == old(self).kinds@.len() + 1 + type_params@.len(),
            *final(self) == (Pools { kinds: final(self).kinds, ..*old(self) }),
            kind_arity(final(self).kinds@, id.0 as int) == type_params@.len(),
            star_arrows(final(self).kinds@, id.0 as int, type_params@.len()),
            final(self).kinds@[old(self).kinds@.len() as int] is Star,
            arrows_over(final(self).kinds@, id.0 as int, old(self).kinds@.len() as int, type_params@.len()),
    {
        let star = self.kind_star();
        let mut acc = star;
        let mut i: usize = type_params.len();
        while i > 0
            invariant
                i <= type_params@.len(),
                self.wf(),
                old(self).grows_to(self),
                star.0 < self.kinds@.len(),
                acc.0 < self.kinds@.len(),
                self.kinds@.len() == old(self).kinds@.len() + 1 + (type_params@.len() - i),
                *self == (Pools { kinds: self.kinds, ..*old(self) }),
                kind_arity(self.kinds@, acc.0 as int) == type_params@.len() - i,
                star_arrows(self.kinds@, acc.0 as int, (type_params@.len() - i) as nat),
                self.kinds@[star.0 as int] is Star,
                star.0 == old(self).kinds@.len(),
                arrows_over(self.kinds@, acc.0 as int, star.0 as int, (type_params@.len() - i) as nat),
            decreases i,
        {
            let ghost before = *self;
            let prev = acc;
            acc = self.kind_arrow(star, acc);
            proof {
                lemma_arity_grow(&before, &*self, prev.0 as int);
                lemma_star_arrows_grow(before.kinds@, self.kinds@, prev.0 as int, (type_params@.len() - i) as nat);
                lemma_arrows_over_grow(before.kinds@, self.kinds@, prev.0 as int, star.0 as int, (type_params@.len() - i) as nat);
                assert(self.kinds@[star.0 as int] == before.kinds@[star.0 as int]);
            }
            i = i - 1;
        }
        acc
    }

    // ----- global tables ---------------------------------------------------
    /// Binds the scheme of a global name, recording the name's order on first binding.
    pub fn bind_global_scheme(&mut self, name: InternedString, scheme: TypeScheme)
        requires
            old(self).wf(),
            old(self).valid_type(scheme.ty),
        ensures
            final(self).wf(),
            final(self).globals@ == assoc_put(old(self).globals@, name, scheme),
            assoc_index(old(self).globals@, name) == -1 ==> final(self).global_order@ == old(self).global_order@.push(name),
            assoc_index(old(self).globals@, name) != -1 ==> final(self).global_order@ == old(self).global_order@,
            *final(self) == (Pools { globals: final(self).globals, global_order: final(self).global_order, ..*old(self) }),
            old(self).grows_to(final(self)),
    {
        proof {
            lemma_assoc_index(self.globals@, name);
        }
        if assoc_find(&self.globals, name).is_none() {
            self.global_order.push(name);
        }
        let ghost mid = *self;
        assoc_insert(&mut self.globals, name, scheme);
        proof {
            let n = self.types@.len();
            lemma_assoc_put_all(old(self).globals@, name, scheme, |sc: TypeScheme| sc.ty.0 < n);
            old(self).lemma_wf_extend(self);
        }
    }

    /// The scheme bound to a global name.
    pub fn get_global_scheme(&self, name: &InternedString) -> (r: Option<TypeScheme>)
        requires
            self.wf(),
        ensures
            assoc_index(self.globals@, *name) == -1 ==> r is None,
            assoc_index(self.globals@, *name) != -1 ==> r is Some && same_scheme(r.unwrap(), assoc_get(self.globals@, *name).unwrap()),
            r is Some ==> self.valid_type(r.unwrap().ty),
    {
        proof {
            lemma_assoc_index(self.globals@, *name);
        }
        match assoc_find(&self.globals, *name) {
            Some(i) => Some(self.globals[i].1.copy()),
            None => None,
        }
    }

    pub fn add_constructor(&mut self, name: InternedString, constructor_type: ConstructorType)
        requires
            old(self).wf(),
            old(self).valid_type(constructor_type.component_type),
            old(self).valid_type(constructor_type.result_type),
        ensures
            final(self).wf(),
            final(self).constructors@ == assoc_put(old(self).constructors@, name, constructor_type),
            *final(self) == (Pools { constructors: final(self).constructors, ..*old(self) }),
            old(self).grows_to(final(self)),
    {
        assoc_insert(&mut self.constructors, name, constructor_type);
        proof {
            let n = self.types@.len();
            let ne = self.exprs@.len();
            let nk = self.kinds@.len();
            lemma_assoc_put_all(old(self).constructors@, name, constructor_type, |c: ConstructorType| c.component_type.0 < n && c.result_type.0 < n);
            old(self).lemma_wf_extend(self);
        }
    }

    pub fn is_constructor(&self, name: &InternedString) -> (r: bool)
        ensures
            r == (assoc_index(self.constructors@, *name) != -1),
    {
        assoc_find(&self.constructors, *name).is_some()
    }

    pub fn get_constructor(&self, name: &InternedString) -> (r: Option<ConstructorType>)
        requires
            self.wf(),
        ensures
            assoc_index(self.constructors@, *name) == -1 ==> r is None,
            assoc_index(self.constructors@, *name) != -1 ==> r is Some && same_constructor(r.unwrap(), assoc_get(self.constructors@, *name).unwrap()),
            r is Some ==> self.valid_type(r.unwrap().component_type) && self.valid_type(r.unwrap().result_type),
    {
        proof {
            lemma_assoc_index(self.constructors@, *name);
        }
        match assoc_find(&self.constructors, *name) {
            Some(i) => Some(self.constructors[i].1.copy()),
            None => None,
        }
    }

    pub fn add_function_implementation(&mut self, name: InternedString, expr_id: ExprId)
        requires
            old(self).wf(),
            old(self).valid_expr(expr_id),
        ensures
            final(self).wf(),
            final(self).function_implementations@ == assoc_put(old(self).function_implementations@, name, expr_id),
            *final(self) == (Pools { function_implementations: final(self).function_implementations, ..*old(self) }),
            old(self).grows_to(final(self)),
    {
        assoc_insert(&mut self.function_implementations, name, expr_id);
        proof {
            let n = self.types@.len();
            let ne = self.exprs@.len();
            let nk = self.kinds@.len();
            lemma_assoc_put_all(old(self).function_implementations@, name, expr_id, |e: ExprId| e.0 < ne);
            old(self).lemma_wf_extend(self);
        }
    }

    pub fn get_function_implementation(&self, name: &InternedString) -> (r: Option<ExprId>)
        requires
            self.wf(),
        ensures
            r == assoc_get(self.function_implementations@, *name),
            r is Some ==> self.valid_expr(r.unwrap()),
    {
        proof {
            lemma_assoc_index(self.function_implementations@, *name);
        }
        match assoc_find(&self.function_implementations, *name) {
            Some(i) => Some(self.function_implementations[i].1),
            None => None,
        }
    }

    /// The position of a global name in binding order.
    pub fn get_global_index(&self, name: &InternedString) -> (r: Option<GlobalVarIdx>)
        ensures
            r is Some ==> r.unwrap().0 < self.global_order@.len() && self.global_order@[r.unwrap().0 as int] == *name
                && forall|j: int| 0 <= j < r.unwrap().0 ==> self.global_order@[j] != *name,
            r is None ==> forall|j: int| 0 <= j < self.global_order@.len() ==> self.global_order@[j] != *name,
    {
        let mut i: usize = 0;
        while i < self.global_order.len()
            invariant
                i <= self.global_order@.len(),
                forall|j: int| 0 <= j < i ==> self.global_order@[j] != *name,
            decreases self.global_order@.len() - i,
        {
            if self.global_order[i] == *name {
                return Some(GlobalVarIdx(i));
            }
            i = i + 1;
        }
        None
    }

    pub fn get_global_name(&self, idx: GlobalVarIdx) -> (r: Option<InternedString>)
        ensures
            idx.0 < self.global_order@.len() ==> r == Some(self.global_order@[idx.0 as int]),
            idx.0 >= self.global_order@.len() ==> r is None,
    {
        if idx.0 < self.global_order.len() {
            Some(self.global_order[idx.0])
        } else {
            None
        }
    }

    pub fn bind_type_constructor_kind(&mut self, name: InternedString, kind: KindId)
        requires
            old(self).wf(),
            kind.0 < old(self).kinds@.len(),
        ensures
            final(self).wf(),
            final(self).type_constructor_kinds@ == assoc_put(old(self).type_constructor_kinds@, name, kind),
            *final(self) == (Pools { type_constructor_kinds: final(self).type_constructor_kinds, ..*old(self) }),
            old(self).grows_to(final(self)),
    {
        assoc_insert(&mut self.type_constructor_kinds, name, kind);
        proof {
            let n = self.types@.len();
            let ne = self.exprs@.len();
            let nk = self.kinds@.len();
            lemma_assoc_put_all(old(self).type_constructor_kinds@, name, kind, |kd: KindId| kd.0 < nk);
            old(self).lemma_wf_extend(self);
        }
    }

    pub fn get_type_constructor_kind(&self, name: &InternedString) -> (r: Option<KindId>)
        requires
            self.wf(),
        ensures
            r == assoc_get(self.type_constructor_kinds@, *name),
            r is Some ==> r.unwrap().0 < self.kinds@.len(),
    {
        proof {
            lemma_assoc_index(self.type_constructor_kinds@, *name);
        }
        match assoc_find(&self.type_constructor_kinds, *name) {
            Some(i) => Some(self.type_constructor_kinds[i].1),
            None => None,
        }
    }

    /// Interns a name, failing when the interner is full.
    pub fn intern_name(&mut self, s: &str) -> (r: Option<InternedString>)
        requires
            old(self).wf(),
        ensures
            final(self).wf(),
            old(self).grows_to(final(self)),
            *final(self) == (Pools { interner: final(self).interner, ..*old(self) }),
            r is Some ==> final(self).interner.text_of(r.unwrap()) == s@,
            r is None ==> *final(self) == *old(self),
            (r is Some) == (old(self).interner.strings@.len() < 0xFFFF_FFFE),
            final(self).interner.strings@.len() <= old(self).interner.strings@.len() + 1,
            r is Some ==> (r.unwrap().0 as int) < final(self).interner.strings@.len(),
            forall|i: int|
                0 <= i < old(self).interner.strings@.len() ==> final(self).interner.strings@[i]
                    == old(self).interner.strings@[i],
    {
        if self.interner.len() >= 0xFFFF_FFFEusize {
            return None;
        }
        let r = self.interner.intern(s);
        proof {
            old(self).lemma_tables_grow(self);
            old(self).lemma_wf_extend(self);
        }
        Some(r)
    }

    /// Interns a name given as characters, failing when the interner is full.
    pub fn intern_chars(&mut self, s: &Vec<char>) -> (r: Option<InternedString>)
        requires
            old(self).wf(),
        ensures
            final(self).wf(),
            old(self).grows_to(final(self)),
            *final(self) == (Pools { interner: final(self).interner, ..*old(self) }),
            r is Some ==> final(self).interner.text_of(r.unwrap()) == s@,
            r is Some ==> (r.unwrap().0 as int) < final(self).interner.strings@.len(),
            r is None ==> *final(self) == *old(self),
            (r is Some) == (old(self).interner.strings@.len() < 0xFFFF_FFFE),
    {
        if self.interner.len() >= 0xFFFF_FFFEusize {
            return None;
        }
        let r = self.interner.intern_chars(s);
        proof {
            old(self).lemma_tables_grow(self);
            old(self).lemma_wf_extend(self);
        }
        Some(r)
    }

    /// Registers the builtin `BuiltinList` type and its `Nil` and `Cons` constructors.
    pub fn init_builtin_constructors(&mut self)
        requires
            old(self).wf(),
            old(self).next_type_var < usize::MAX,
        ensures
            final(self).wf(),
            old(self).grows_to(final(self)),
            final(self).exprs == old(self).exprs,
            final(self).function_implementations == old(self).function_implementations,
            final(self).globals == old(self).globals,
            final(self).global_order == old(self).global_order,
            final(self).localizations == old(self).localizations,
            old(self).interner.strings@.len() + 4 < 0xFFFF_FFFE ==> has_builtin_lists(final(self)),
            final(self).interner.strings@.len() <= old(self).interner.strings@.len() + 4,
            final(self).next_type_var <= old(self).next_type_var + 1,
            final(self).cached_int_type == old(self).cached_int_type,
            final(self).cached_unit_type == old(self).cached_unit_type,
            final(self).cached_empty_row_type == old(self).cached_empty_row_type,
            old(self).interner.strings@.len() + 4 < 0xFFFF_FFFE ==> final(self).next_type_var == old(self).next_type_var + 1,
    {
        let list_name = match self.intern_name("BuiltinList") {
            Some(n) => n,
            None => return ,
        };
        let star_kind = self.kind_star();
        let list_kind = self.kind_arrow(star_kind, star_kind);
        self.bind_type_constructor_kind(list_name, list_kind);
        let ghost tck = self.type_constructor_kinds@;
        let ghost kinds = self.kinds@;
        proof {
            lemma_assoc_put_get(old(self).type_constructor_kinds@, list_name, list_kind, list_name);
            assert(self.interner.text_of(list_name) == "BuiltinList"@);
        }
        let a_name = match self.intern_name("a") {
            Some(n) => n,
            None => return ,
        };
        assert(self.interner.text_of(list_name) == "BuiltinList"@);
        if self.next_type_var == usize::MAX {
            return ;
        }
        let a_var_id = TypeVarId::new_named(self.next_type_var, a_name);
        let ghost before = *self;
        self.next_type_var = self.next_type_var + 1;
        proof {
            before.lemma_tables_grow(self);
            before.lemma_wf_extend(self);
        }
        let a_type = self.alloc_type(Type::Var(a_var_id, SpanId(0)));
        let mut params: Vec<TypeId> = Vec::new();
        params.push(a_type);
        let ghost tp0 = self.type_params@.len();
        let ghost before_list = *self;
        assert(params@[0] == a_type);
        let ps = params.as_slice();
        assert(ps@ == params@);
        let list_a_type = self.data_type(list_name, ps);
        proof {
            assert(self.type_params@ == before_list.type_params@ + ps@);
            assert(self.type_params@[tp0 as int] == ps@[0]);
            assert(self.type_params@[tp0 as int] == a_type);
            assert(self.types@[a_type.0 as int] == Type::Var(a_var_id, SpanId(0)));
            assert(tp0 == before_list.type_params.len());
            assert(self.types@[list_a_type.0 as int] == Type::DataType(list_name, TypeId(tp0 as usize), 1, SpanId(0)));
            assert(is_list_of(self, list_a_type, list_name, a_var_id));
        }
        let nil_name = match self.intern_name("Nil") {
            Some(n) => n,
            None => return ,
        };
        proof {
            assert(self.interner.text_of(list_name) == "BuiltinList"@);
            assert(is_list_of(self, list_a_type, list_name, a_var_id));
            assert(self.types@[a_type.0 as int] == Type::Var(a_var_id, SpanId(0)));
        }
        let mut outer: Vec<TypeVarId> = Vec::new();
        outer.push(a_var_id);
        let nil_constructor_type = ConstructorType {
            outer_quantified_vars: outer,
            universal_vars: Vec::new(),
            existential_vars: Vec::new(),
            component_type: self.cached_unit_type,
            result_type: list_a_type,
        };
        let ghost before_nil = *self;
        self.add_constructor(nil_name, nil_constructor_type);
        proof {
            lemma_assoc_put_get(before_nil.constructors@, nil_name, nil_constructor_type, nil_name);
        }
        let cons_name = match self.intern_name("Cons") {
            Some(n) => n,
            None => return ,
        };
        proof {
            assert(self.interner.text_of(list_name) == "BuiltinList"@);
            assert(self.interner.text_of(nil_name) == "Nil"@);
            assert(is_list_of(self, list_a_type, list_name, a_var_id));
            assert(self.types@[a_type.0 as int] == Type::Var(a_var_id, SpanId(0)));
            reveal_strlit("Nil");
            reveal_strlit("Cons");
            assert(self.interner.text_of(nil_name) != self.interner.text_of(cons_name));
        }
        let cons_result_type = self.alloc_type(Type::Arrow(list_a_type, list_a_type, SpanId(0)));
        proof {
            assert(is_list_of(self, list_a_type, list_name, a_var_id));
            assert(self.types@[a_type.0 as int] == Type::Var(a_var_id, SpanId(0)));
        }
        let mut outer2: Vec<TypeVarId> = Vec::new();
        outer2.push(a_var_id);
        let cons_constructor_type = ConstructorType {
            outer_quantified_vars: outer2,
            universal_vars: Vec::new(),
            existential_vars: Vec::new(),
            component_type: a_type,
            result_type: cons_result_type,
        };
        let ghost before_cons = *self;
        self.add_constructor(cons_name, cons_constructor_type);
        proof {
            lemma_assoc_put_get(before_cons.constructors@, cons_name, cons_constructor_type, nil_name);
            lemma_assoc_put_get(before_cons.constructors@, cons_name, cons_constructor_type, cons_name);
            assert(builtin_lists_named(self, list_name, nil_name, cons_name));
        }
    }
}


/// Type `t` is `list a`: the data type `list` applied to the variable numbered like `a`.
pub open spec fn is_list_of(p: &Pools, t: TypeId, list: InternedString, a: TypeVarId) -> bool {
    &&& t.0 < p.types@.len()
    &&& p.types@[t.0 as int] matches Type::DataType(n, start, len, _) && n == list && len == 1 && start.0
        < p.type_params@.len() && p.type_params@[start.0 as int].0 < p.types@.len() && (p.types@[p.type_params@[start.0 as int].0 as int] matches Type::Var(
        v,
        _,
    ) && v.0 == a.0)
}

/// `list : * → *`, `nil : ∀a. list a` with a unit component, and `cons : ∀a. a →
/// (list a → list a)`.
pub open spec fn builtin_lists_named(p: &Pools, list: InternedString, nil: InternedString, cons: InternedString) -> bool {
    &&& p.interner.text_of(list) == "BuiltinList"@
    &&& p.interner.text_of(nil) == "Nil"@
    &&& p.interner.text_of(cons) == "Cons"@
    &&& assoc_get(p.type_constructor_kinds@, list) matches Some(k) && k.0 < p.kinds@.len() && (p.kinds@[k.0 as int] matches Kind::Arrow(
        x,
        y,
    ) && x.0 < p.kinds@.len() && y.0 < p.kinds@.len() && p.kinds@[x.0 as int] is Star && p.kinds@[y.0 as int] is Star)
    &&& assoc_get(p.constructors@, nil) matches Some(n) && n.outer_quantified_vars@.len() == 1 && n.universal_vars@.len() == 0
        && n.existential_vars@.len() == 0 && n.component_type == p.cached_unit_type && is_list_of(
        p,
        n.result_type,
        list,
        n.outer_quantified_vars@[0],
    )
    &&& assoc_get(p.constructors@, cons) matches Some(c) && c.outer_quantified_vars@.len() == 1 && c.universal_vars@.len() == 0
        && c.existential_vars@.len() == 0 && c.component_type.0 < p.types@.len() && (p.types@[c.component_type.0 as int] matches Type::Var(
        v,
        _,
    ) && v.0 == c.outer_quantified_vars@[0].0) && c.result_type.0 < p.types@.len() && (p.types@[c.result_type.0 as int] matches Type::Arrow(
        l1,
        l2,
        _,
    ) && is_list_of(p, l1, list, c.outer_quantified_vars@[0]) && is_list_of(p, l2, list, c.outer_quantified_vars@[0]))
}

/// The builtin list type and its two constructors are registered.
pub open spec fn has_builtin_lists(p: &Pools) -> bool {
    exists|list: InternedString, nil: InternedString, cons: InternedString| #[trigger] builtin_lists_named(p, list, nil, cons)
}

impl Pools {
    /// `new` keeps the program (expressions, patterns, tables, names) of `self` and
    /// only adds types and spans.
    pub open spec fn keeps_program(&self, new: &Pools) -> bool {
        &&& self.grows_to(new)
        &&& new.exprs == self.exprs
        &&& new.patterns == self.patterns
        &&& new.pattern_bindings == self.pattern_bindings
        &&& new.nested_patterns == self.nested_patterns
        &&& new.record_fields == self.record_fields
        &&& new.record_pattern_fields == self.record_pattern_fields
        &&& new.kinds == self.kinds
        &&& new.globals == self.globals
        &&& new.constructors == self.constructors
        &&& new.function_implementations == self.function_implementations
        &&& new.global_order == self.global_order
        &&& new.type_constructor_kinds == self.type_constructor_kinds
        &&& new.cached_int_type == self.cached_int_type
        &&& new.cached_unit_type == self.cached_unit_type
        &&& new.cached_empty_row_type == self.cached_empty_row_type
        &&& new.interner == self.interner
    }

    pub proof fn lemma_keeps_trans(a: &Pools, b: &Pools, c: &Pools)
        requires
            a.keeps_program(b),
            b.keeps_program(c),
        ensures
            a.keeps_program(c),
    {
    }

    /// A span that exists: `span` itself, or the dummy span.
    pub fn existing_span(&self, span: SpanId) -> (r: SpanId)
        requires
            self.wf(),
        ensures
            self.valid_span(r),
            self.valid_span(span) ==> r == span,
    {
        if span.0 < self.localizations.len() {
            span
        } else {
            SpanId(0)
        }
    }
}


/// Whether `i` is the first position of `name` in `order`.
pub open spec fn first_position(order: Seq<InternedString>, name: InternedString, i: int) -> bool {
    0 <= i < order.len() && order[i] == name && forall|j: int| 0 <= j < i ==> order[j] != name
}

/// An expression after global resolution: a variable without a local binder whose
/// name is a global becomes a reference to that global; everything else is unchanged.
pub open spec fn resolved_expr(order: Seq<InternedString>, e: Expr) -> Expr {
    match e {
        Expr::Var(d, name, span) => if d.0 == usize::MAX && order.contains(name) {
            Expr::GlobalVar(GlobalVarIdx((choose|i: int| first_position(order, name, i)) as usize), name, span)
        } else {
            e
        },
        _ => e,
    }
}

/// `cur` is `orig` with some expressions resolved.
pub open spec fn partly_resolved(order: Seq<InternedString>, orig: Seq<Expr>, cur: Seq<Expr>) -> bool {
    &&& cur.len() == orig.len()
    &&& forall|i: int| 0 <= i < orig.len() ==> #[trigger] cur[i] == orig[i] || cur[i] == resolved_expr(order, orig[i])
}

/// Some expression of `exprs` is an unresolved occurrence of `name`.
pub open spec fn unresolved_in(order: Seq<InternedString>, exprs: Seq<Expr>, name: InternedString) -> bool {
    exists|j: int| 0 <= j < exprs.len() && unresolved_name(order, exprs[j], name)
}

/// A variable without a local binder whose name is not a global.
pub open spec fn unresolved_name(order: Seq<InternedString>, e: Expr, name: InternedString) -> bool {
    e matches Expr::Var(d, n, _) && d.0 == usize::MAX && n == name && !order.contains(name)
}

impl Pools {
    /// Resolves every variable without a local binder to the global of its name; the
    /// names with no such global are returned, once per visit of their occurrence.
    pub fn backpatch_global_variables(&mut self) -> (undefined: Vec<InternedString>)
        requires
            old(self).wf(),
        ensures
            final(self).wf(),
            final(self).exprs@.len() == old(self).exprs@.len(),
            forall|i: int| 0 <= i < old(self).exprs@.len() ==> #[trigger] final(self).exprs@[i] == resolved_expr(
                old(self).global_order@,
                old(self).exprs@[i],
            ),
            *final(self) == (Pools { exprs: final(self).exprs, ..*old(self) }),
            forall|k: int| 0 <= k < undefined@.len() ==> unresolved_in(old(self).global_order@, old(self).exprs@, #[trigger] undefined@[k]),
            forall|i: int, name: InternedString| 0 <= i < old(self).exprs@.len() && #[trigger] unresolved_name(
                old(self).global_order@, old(self).exprs@[i], name) ==> undefined@.contains(name),
    {
        let mut undefined_vars: Vec<InternedString> = Vec::new();
        let expr_count = self.exprs.len();
        let mut i: usize = 0;
        while i < expr_count
            invariant
                i <= expr_count,
                expr_count == old(self).exprs@.len(),
                self.wf(),
                *self == (Pools { exprs: self.exprs, ..*old(self) }),
                partly_resolved(old(self).global_order@, old(self).exprs@, self.exprs@),
                forall|j: int| 0 <= j < i ==> #[trigger] self.exprs@[j] == resolved_expr(old(self).global_order@, old(self).exprs@[j]),
                forall|k: int| 0 <= k < undefined_vars@.len() ==> unresolved_in(old(self).global_order@, old(self).exprs@, #[trigger] undefined_vars@[k]),
                forall|j: int, name: InternedString| 0 <= j < i && #[trigger] unresolved_name(
                    old(self).global_order@, old(self).exprs@[j], name) ==> undefined_vars@.contains(name),
            decreases expr_count - i,
        {
            let ghost before = self.exprs@;
            let ghost u0 = undefined_vars@;
            self.backpatch_expr(ExprId(i), &mut undefined_vars, Ghost(old(self).exprs@));
            proof {
                assert forall|j: int| 0 <= j < i + 1 implies #[trigger] self.exprs@[j] == resolved_expr(old(self).global_order@, old(self).exprs@[j]) by {
                    if j < i {
                        assert(before[j] == resolved_expr(old(self).global_order@, old(self).exprs@[j]));
                    }
                }
                assert forall|j: int, name: InternedString| 0 <= j < i + 1 && #[trigger] unresolved_name(
                    old(self).global_order@, old(self).exprs@[j], name) implies undefined_vars@.contains(name) by {
                    if j < i {
                        assert(u0.contains(name));
                        let w = choose|w: int| 0 <= w < u0.len() && u0[w] == name;
                        assert(undefined_vars@[w] == name);
                    }
                }
            }
            i = i + 1;
        }
        undefined_vars
    }

    fn backpatch_expr(&mut self, expr_id: ExprId, undefined_vars: &mut Vec<InternedString>, orig: Ghost<Seq<Expr>>)
        requires
            old(self).wf(),
            old(self).valid_expr(expr_id),
            partly_resolved(old(self).global_order@, orig@, old(self).exprs@),
            forall|k: int| 0 <= k < old(undefined_vars)@.len() ==> unresolved_in(old(self).global_order@, orig@, #[trigger] old(undefined_vars)@[k]),
        ensures
            final(self).wf(),
            *final(self) == (Pools { exprs: final(self).exprs, ..*old(self) }),
            partly_resolved(old(self).global_order@, orig@, final(self).exprs@),
            forall|i: int| 0 <= i < orig@.len() && old(self).exprs@[i] == resolved_expr(old(self).global_order@, orig@[i])
                ==> #[trigger] final(self).exprs@[i] == resolved_expr(old(self).global_order@, orig@[i]),
            final(self).exprs@[expr_id.0 as int] == resolved_expr(old(self).global_order@, orig@[expr_id.0 as int]),
            prefix_of(old(undefined_vars)@, final(undefined_vars)@),
            forall|k: int| 0 <= k < final(undefined_vars)@.len() ==> unresolved_in(old(self).global_order@, orig@, #[trigger] final(undefined_vars)@[k]),
            forall|name: InternedString| unresolved_name(old(self).global_order@, orig@[expr_id.0 as int], name)
                ==> final(undefined_vars)@.contains(name),
        decreases expr_id.0, 1nat,
    {
        let expr = self.exprs[expr_id.0];
        let ghost order = self.global_order@;
        proof {
            assert(self.expr_node_ok(self.exprs@[expr_id.0 as int], expr_id.0 as int));
            assert(self.exprs@[expr_id.0 as int] == orig@[expr_id.0 as int] || self.exprs@[expr_id.0 as int] == resolved_expr(order, orig@[expr_id.0 as int]));
            if !(expr is Var) && !(expr is GlobalVar) {
                assert(orig@[expr_id.0 as int] == expr) by {
                    if orig@[expr_id.0 as int] != expr {
                        assert(expr == resolved_expr(order, orig@[expr_id.0 as int]));
                    }
                }
            }
        }
        match expr {
            Expr::Var(debruijn_index, name, span) => {
                if debruijn_index.index() == usize::MAX {
                    match self.get_global_index(&name) {
                        Some(global_idx) => {
                            proof {
                                assert(order.contains(name));
                                assert(first_position(order, name, global_idx.0 as int));
                                let c = choose|c: int| first_position(order, name, c);
                                assert(c == global_idx.0 as int) by {
                                    if c < global_idx.0 as int {
                                        assert(order[c] != name);
                                    } else if c > global_idx.0 as int {
                                        assert(order[global_idx.0 as int] != name);
                                    }
                                }
                            }
                            let ghost e0 = self.exprs@;
                            self.exprs.set(expr_id.0, Expr::GlobalVar(global_idx, name, span));
                            proof {
                                lemma_resolved_idempotent(order, orig@[expr_id.0 as int]);
                                assert forall|i: int| 0 <= i < orig@.len() implies #[trigger] self.exprs@[i] == orig@[i] || self.exprs@[i] == resolved_expr(order, orig@[i]) by {
                                    if i != expr_id.0 as int {
                                        assert(self.exprs@[i] == e0[i]);
                                    }
                                }
                                old(self).lemma_wf_replace_leaf(self, expr_id.0 as int);
                            }
                        },
                        None => {
                            proof {
                                assert(!order.contains(name)) by {
                                    if order.contains(name) {
                                        let w = choose|w: int| 0 <= w < order.len() && order[w] == name;
                                        assert(order[w] != name);
                                    }
                                }
                                assert(orig@[expr_id.0 as int] == expr) by {
                                    if orig@[expr_id.0 as int] != expr {
                                        assert(expr == resolved_expr(order, orig@[expr_id.0 as int]));
                                    }
                                }
                            }
                            let ghost u0 = undefined_vars@;
                            undefined_vars.push(name);
                            proof {
                                assert(undefined_vars@[u0.len() as int] == name);
                                assert(unresolved_name(order, orig@[expr_id.0 as int], name));
                            }
                        },
                    }
                }
            },
            Expr::Lambda(body_id, _, _) => {
                self.backpatch_expr(body_id, undefined_vars, orig);
                proof { self.lemma_unchanged_at(expr_id, expr, orig@, order); }
            },
            Expr::Call(func_id, arg_id, _) => {
                self.backpatch_expr(func_id, undefined_vars, orig);
                self.backpatch_expr(arg_id, undefined_vars, orig);
                proof { self.lemma_unchanged_at(expr_id, expr, orig@, order); }
            },
            Expr::Let(value_id, body_id, _, _) => {
                self.backpatch_expr(value_id, undefined_vars, orig);
                self.backpatch_expr(body_id, undefined_vars, orig);
                proof { self.lemma_unchanged_at(expr_id, expr, orig@, order); }
            },
            Expr::Construct(_, arg_id, _) => {
                self.backpatch_expr(arg_id, undefined_vars, orig);
                proof { self.lemma_unchanged_at(expr_id, expr, orig@, order); }
            },
            Expr::Match(scrutinee, match_arms, _) => {
                self.backpatch_expr(scrutinee, undefined_vars, orig);
                let mut i: usize = 0;
                while i < match_arms.length
                    invariant
                        i <= match_arms.length,
                        self.wf(),
                        *self == (Pools { exprs: self.exprs, ..*old(self) }),
                        self.arms_below(match_arms, expr_id.0 as int),
                        self.valid_expr(expr_id),
                        self.exprs@[expr_id.0 as int] == expr,
                        orig@[expr_id.0 as int] == expr,
                        expr is Match,
                        partly_resolved(old(self).global_order@, orig@, self.exprs@),
                        forall|i: int| 0 <= i < orig@.len() && old(self).exprs@[i] == resolved_expr(old(self).global_order@, orig@[i])
                            ==> #[trigger] self.exprs@[i] == resolved_expr(old(self).global_order@, orig@[i]),
                        prefix_of(old(undefined_vars)@, undefined_vars@),
                        forall|k: int| 0 <= k < undefined_vars@.len() ==> unresolved_in(old(self).global_order@, orig@, #[trigger] undefined_vars@[k]),
                    decreases match_arms.length - i,
                {
                    let plen = self.patterns.len();
                    assert(match_arms.start_id.0 + i < plen);
                    let case = self.patterns[match_arms.start_id.0 + i];
                    self.backpatch_expr(case.body, undefined_vars, orig);
                    i = i + 1;
                }
                proof { self.lemma_unchanged_at(expr_id, expr, orig@, order); }
            },
            Expr::Record(start, len, _) => {
                self.backpatch_fields(expr_id, start.0, len, undefined_vars, orig);
                proof { self.lemma_unchanged_at(expr_id, expr, orig@, order); }
            },
            Expr::Project(record_id, _, _) => {
                self.backpatch_expr(record_id, undefined_vars, orig);
                proof { self.lemma_unchanged_at(expr_id, expr, orig@, order); }
            },
            Expr::Extend(record_id, start, len, _) => {
                self.backpatch_expr(record_id, undefined_vars, orig);
                self.backpatch_fields(expr_id, start.0, len, undefined_vars, orig);
                proof { self.lemma_unchanged_at(expr_id, expr, orig@, order); }
            },
            Expr::Ffi(_, _, arg_expr, _) => {
                match arg_expr {
                    Some(arg_id) => {
                        self.backpatch_expr(arg_id, undefined_vars, orig);
                    },
                    None => {},
                }
                proof { self.lemma_unchanged_at(expr_id, expr, orig@, order); }
            },
            Expr::Int(_, _) | Expr::String(_, _) | Expr::Unit(_) | Expr::GlobalVar(_, _, _) => {},
        }
    }

    fn backpatch_fields(
        &mut self,
        expr_id: ExprId,
        start: usize,
        len: usize,
        undefined_vars: &mut Vec<InternedString>,
        orig: Ghost<Seq<Expr>>,
    )
        requires
            old(self).wf(),
            old(self).valid_expr(expr_id),
            old(self).fields_below(start as int, len as int, expr_id.0 as int),
            partly_resolved(old(self).global_order@, orig@, old(self).exprs@),
            orig@[expr_id.0 as int] == old(self).exprs@[expr_id.0 as int],
            !(old(self).exprs@[expr_id.0 as int] is Var),
            forall|k: int| 0 <= k < old(undefined_vars)@.len() ==> unresolved_in(old(self).global_order@, orig@, #[trigger] old(undefined_vars)@[k]),
        ensures
            final(self).wf(),
            *final(self) == (Pools { exprs: final(self).exprs, ..*old(self) }),
            partly_resolved(old(self).global_order@, orig@, final(self).exprs@),
            forall|i: int| 0 <= i < orig@.len() && old(self).exprs@[i] == resolved_expr(old(self).global_order@, orig@[i])
                ==> #[trigger] final(self).exprs@[i] == resolved_expr(old(self).global_order@, orig@[i]),
            final(self).exprs@[expr_id.0 as int] == old(self).exprs@[expr_id.0 as int],
            prefix_of(old(undefined_vars)@, final(undefined_vars)@),
            forall|k: int| 0 <= k < final(undefined_vars)@.len() ==> unresolved_in(old(self).global_order@, orig@, #[trigger] final(undefined_vars)@[k]),
            forall|k: int| start <= k < start + len ==> final(self).exprs@[(#[trigger] old(self).record_fields@[k]).expr.0 as int]
                == resolved_expr(old(self).global_order@, orig@[old(self).record_fields@[k].expr.0 as int]),
            forall|k: int, name: InternedString| start <= k < start + len && #[trigger] unresolved_name(
                old(self).global_order@,
                orig@[old(self).record_fields@[k].expr.0 as int],
                name,
            ) ==> final(undefined_vars)@.contains(name),
        decreases expr_id.0, 0nat,
    {
        let fields = self.get_record_fields(start, len);
        let mut i: usize = 0;
        while i < fields.len()
            invariant
                i <= fields@.len(),
                fields@ == old(self).record_fields@.subrange(start as int, start + len),
                self.wf(),
                *self == (Pools { exprs: self.exprs, ..*old(self) }),
                old(self).fields_below(start as int, len as int, expr_id.0 as int),
                self.valid_expr(expr_id),
                self.exprs@[expr_id.0 as int] == old(self).exprs@[expr_id.0 as int],
                orig@[expr_id.0 as int] == old(self).exprs@[expr_id.0 as int],
                !(old(self).exprs@[expr_id.0 as int] is Var),
                partly_resolved(old(self).global_order@, orig@, self.exprs@),
                forall|i: int| 0 <= i < orig@.len() && old(self).exprs@[i] == resolved_expr(old(self).global_order@, orig@[i])
                    ==> #[trigger] self.exprs@[i] == resolved_expr(old(self).global_order@, orig@[i]),
                prefix_of(old(undefined_vars)@, undefined_vars@),
                forall|k: int| 0 <= k < undefined_vars@.len() ==> unresolved_in(old(self).global_order@, orig@, #[trigger] undefined_vars@[k]),
                forall|k: int| start <= k < start + i ==> self.exprs@[(#[trigger] old(self).record_fields@[k]).expr.0 as int]
                    == resolved_expr(old(self).global_order@, orig@[old(self).record_fields@[k].expr.0 as int]),
                forall|k: int, name: InternedString| start <= k < start + i && #[trigger] unresolved_name(
                    old(self).global_order@,
                    orig@[old(self).record_fields@[k].expr.0 as int],
                    name,
                ) ==> undefined_vars@.contains(name),
            decreases fields@.len() - i,
        {
            assert(fields@[i as int] == old(self).record_fields@[start + i]);
            let ghost before = self.exprs@;
            let ghost u0 = undefined_vars@;
            self.backpatch_expr(fields[i].expr, undefined_vars, orig);
            proof {
                assert forall|k: int| start <= k < start + i + 1 implies self.exprs@[(#[trigger] old(self).record_fields@[k]).expr.0 as int]
                    == resolved_expr(old(self).global_order@, orig@[old(self).record_fields@[k].expr.0 as int]) by {
                    if k < start + i {
                        let e = old(self).record_fields@[k].expr.0 as int;
                        assert(before[e] == resolved_expr(old(self).global_order@, orig@[e]));
                    }
                }
                assert forall|k: int, name: InternedString| start <= k < start + i + 1 && #[trigger] unresolved_name(
                    old(self).global_order@,
                    orig@[old(self).record_fields@[k].expr.0 as int],
                    name,
                ) implies undefined_vars@.contains(name) by {
                    if k < start + i {
                        assert(u0.contains(name));
                        let w = choose|w: int| 0 <= w < u0.len() && u0[w] == name;
                        assert(undefined_vars@[w] == name);
                    }
                }
            }
            i = i + 1;
        }
    }


    /// Replacing one expression by a leaf keeps the pools well formed.
    pub proof fn lemma_wf_replace_leaf(&self, new: &Pools, idx: int)
        requires
            self.wf(),
            *new == (Pools { exprs: new.exprs, ..*self }),
            new.exprs@.len() == self.exprs@.len(),
            0 <= idx < new.exprs@.len(),
            new.exprs@[idx] is GlobalVar,
            forall|k: int| 0 <= k < new.exprs@.len() && k != idx ==> #[trigger] new.exprs@[k] == self.exprs@[k],
        ensures
            new.wf(),
    {
        assert forall|i: int| 0 <= i < new.types@.len() implies #[trigger] new.type_node_ok(new.types@[i], i) by {
            assert(self.type_node_ok(self.types@[i], i));
            match new.types@[i] {
                Type::DataType(_, st, l, _) => {
                    assert forall|k: int| st.0 <= k < st.0 + l implies (#[trigger] new.type_params@[k]).0 < i by {
                        assert(new.type_params@[k] == self.type_params@[k]);
                    }
                },
                Type::TypeApp(_, st, l, _) => {
                    assert forall|k: int| st.0 <= k < st.0 + l implies (#[trigger] new.type_params@[k]).0 < i by {
                        assert(new.type_params@[k] == self.type_params@[k]);
                    }
                },
                Type::Row(st, l, _, _) => {
                    assert forall|k: int| st.0 <= k < st.0 + l implies (#[trigger] new.row_fields@[k]).field_type.0 < i by {
                        assert(new.row_fields@[k] == self.row_fields@[k]);
                    }
                },
                _ => {},
            }
        }
        assert forall|i: int| 0 <= i < new.exprs@.len() implies #[trigger] new.expr_node_ok(new.exprs@[i], i) by {
            if i != idx {
                assert(self.expr_node_ok(self.exprs@[i], i));
                match new.exprs@[i] {
                    Expr::Match(_, arms, _) => {
                        assert forall|k: int| arms.start_id.0 <= k < arms.start_id.0 + arms.length implies (#[trigger] new.patterns@[k]).body.0 < i by {
                            assert(new.patterns@[k] == self.patterns@[k]);
                        }
                    },
                    Expr::Record(st, l, _) => {
                        assert forall|k: int| st.0 <= k < st.0 + l implies (#[trigger] new.record_fields@[k]).expr.0 < i by {
                            assert(new.record_fields@[k] == self.record_fields@[k]);
                        }
                    },
                    Expr::Extend(_, st, l, _) => {
                        assert forall|k: int| st.0 <= k < st.0 + l implies (#[trigger] new.record_fields@[k]).expr.0 < i by {
                            assert(new.record_fields@[k] == self.record_fields@[k]);
                        }
                    },
                    _ => {},
                }
            }
        }
        assert forall|i: int| 0 <= i < new.kinds@.len() implies #[trigger] new.kind_node_ok(new.kinds@[i], i) by {
            assert(self.kind_node_ok(self.kinds@[i], i));
        }
        assert forall|i: int| 0 <= i < new.localizations@.len() implies #[trigger] new.span_node_ok(new.localizations@[i], i) by {
            assert(self.span_node_ok(self.localizations@[i], i));
        }
        assert forall|k: int| 0 <= k < new.patterns@.len() implies (#[trigger] new.patterns@[k]).body.0 < new.exprs@.len()
            && new.pattern_ok(new.patterns@[k].pattern) by {
            assert(self.patterns@[k].body.0 < self.exprs@.len() && self.pattern_ok(self.patterns@[k].pattern));
        }
        assert forall|k: int| 0 <= k < new.nested_patterns@.len() implies #[trigger] new.pattern_ok(new.nested_patterns@[k]) by {
            assert(self.pattern_ok(self.nested_patterns@[k]));
        }
        assert forall|k: int| 0 <= k < new.record_pattern_fields@.len() implies #[trigger] new.pattern_ok(new.record_pattern_fields@[k].pattern) by {
            assert(self.pattern_ok(self.record_pattern_fields@[k].pattern));
        }
    }

    /// A compound expression is its own resolution.
    proof fn lemma_unchanged_at(&self, expr_id: ExprId, expr: Expr, orig: Seq<Expr>, order: Seq<InternedString>)
        requires
            self.valid_expr(expr_id),
            self.exprs@[expr_id.0 as int] == expr,
            !(expr is Var),
            partly_resolved(order, orig, self.exprs@),
        ensures
            self.exprs@[expr_id.0 as int] == resolved_expr(order, orig[expr_id.0 as int]),
            forall|name: InternedString| !unresolved_name(order, orig[expr_id.0 as int], name),
    {
        let o = orig[expr_id.0 as int];
        assert(self.exprs@[expr_id.0 as int] == o || self.exprs@[expr_id.0 as int] == resolved_expr(order, o));
        if self.exprs@[expr_id.0 as int] == resolved_expr(order, o) {
            lemma_resolved_idempotent(order, o);
        } else {
            assert(!(o is Var));
        }
    }
}

/// Resolving twice is resolving once.
pub proof fn lemma_resolved_idempotent(order: Seq<InternedString>, e: Expr)
    ensures
        resolved_expr(order, resolved_expr(order, e)) == resolved_expr(order, e),
{
}

/// Kind `k` is `* → … → *` with `n` arrows.
pub open spec fn star_arrows(kinds: Seq<Kind>, k: int, n: nat) -> bool
    decreases n,
{
    &&& 0 <= k < kinds.len()
    &&& if n == 0 {
        kinds[k] is Star
    } else {
        kinds[k] matches Kind::Arrow(f, r) && 0 <= f.0 < kinds.len() && kinds[f.0 as int] is Star && star_arrows(
            kinds,
            r.0 as int,
            (n - 1) as nat,
        )
    }
}

/// Appending kinds keeps a `* → … → *` kind.
pub proof fn lemma_star_arrows_grow(a: Seq<Kind>, b: Seq<Kind>, k: int, n: nat)
    requires
        prefix_of(a, b),
        star_arrows(a, k, n),
    ensures
        star_arrows(b, k, n),
    decreases n,
{
    assert(b[k] == a[k]);
    if n > 0 {
        if let Kind::Arrow(f, r) = a[k] {
            assert(b[f.0 as int] == a[f.0 as int]);
            lemma_star_arrows_grow(a, b, r.0 as int, (n - 1) as nat);
        }
    }
}

/// Kind `k` is `n` arrows, each from the one kind node `star`, ending at `star`.
pub open spec fn arrows_over(kinds: Seq<Kind>, k: int, star: int, n: nat) -> bool
    decreases n,
{
    &&& 0 <= k < kinds.len()
    &&& if n == 0 {
        k == star
    } else {
        kinds[k] matches Kind::Arrow(f, r) && f.0 == star && arrows_over(kinds, r.0 as int, star, (n - 1) as nat)
    }
}

/// Arrows over one node stay so as the kind pool grows.
pub proof fn lemma_arrows_over_grow(a: Seq<Kind>, b: Seq<Kind>, k: int, star: int, n: nat)
    requires
        prefix_of(a, b),
        arrows_over(a, k, star, n),
    ensures
        arrows_over(b, k, star, n),
    decreases n,
{
    assert(b[k] == a[k]);
    if n > 0 {
        if let Kind::Arrow(f, r) = a[k] {
            lemma_arrows_over_grow(a, b, r.0 as int, star, (n - 1) as nat);
        }
    }
}

/// The number of arrows along the result side of kind `k`.
pub open spec fn kind_arity(kinds: Seq<Kind>, k: int) -> nat
    decreases k,
{
    if 0 <= k < kinds.len() {
        match kinds[k] {
            Kind::Arrow(_, r) => if 0 <= r.0 < k {
                1 + kind_arity(kinds, r.0 as int)
            } else {
                1
            },
            Kind::Star => 0,
        }
    } else {
        0
    }
}

/// Appending kinds does not change the arity of an existing kind.
pub proof fn lemma_arity_grow(a: &Pools, b: &Pools, k: int)
    requires
        a.grows_to(b),
        0 <= k < a.kinds@.len(),
    ensures
        kind_arity(b.kinds@, k) == kind_arity(a.kinds@, k),
    decreases k,
{
    assert(b.kinds@[k] == a.kinds@[k]);
    match a.kinds@[k] {
        Kind::Arrow(_, r) => {
            if 0 <= r.0 < k {
                lemma_arity_grow(a, b, r.0 as int);
            }
        },
        Kind::Star => {},
    }
}


impl Pools {
    /// Takes the next unused type variable number.
    pub fn take_type_var_number(&mut self) -> (r: usize)
        requires
            old(self).wf(),
            old(self).next_type_var < usize::MAX,
        ensures
            final(self).wf(),
            r == old(self).next_type_var,
            final(self).next_type_var == old(self).next_type_var + 1,
            *final(self) == (Pools { next_type_var: final(self).next_type_var, ..*old(self) }),
            old(self).grows_to(final(self)),
    {
        let r = self.next_type_var;
        self.next_type_var = self.next_type_var + 1;
        proof {
            old(self).lemma_tables_grow(self);
            old(self).lemma_wf_extend(self);
        }
        r
    }
}

} // verus!
