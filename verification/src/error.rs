//! Type errors with the context needed to report them.
use vstd::prelude::*;

use crate::pools::{ExprId, Pools, SpanId, TypeId, TypeVarId};
use crate::text::{chars_to_string, nat_digits, push_chars, push_str, push_usize, str_to_chars};
use crate::type_inference::PooledTypingContext;
use crate::expr::expr_text;
use crate::types::{scheme_text, type_text, TypeScheme};
use crate::InternedString;

verus! {

#[derive(Debug, Clone)]
pub struct TypeMismatchInfo {
    pub expected_type: TypeId,
    pub found_type: TypeId,
    pub expected_expr: Option<ExprId>,
    pub found_expr: Option<ExprId>,
    pub expected_span: SpanId,
    pub found_span: SpanId,
    pub context: Option<MismatchContext>,
}

#[derive(Debug, Clone)]
pub enum MismatchContext {
    FunctionApplication {
        function_expr: ExprId,
        function_span: SpanId,
        arg_index: usize,
        arg_expr: ExprId,
        arg_span: SpanId,
    },
    FunctionReturn {
        function_name: Option<InternedString>,
        expected_return: TypeId,
        actual_return: TypeId,
    },
    VariableBinding { var_name: InternedString, var_span: SpanId },
    PatternMatch { pattern_span: SpanId, scrutinee_expr: ExprId },
    RecordField { record_expr: ExprId, field_name: InternedString, field_span: SpanId },
}

#[derive(Debug, Clone)]
pub struct OccursCheckInfo {
    pub var: TypeVarId,
    pub in_type: TypeId,
    pub var_span: SpanId,
    pub type_span: SpanId,
    pub context_expr: Option<ExprId>,
}

#[derive(Debug, Clone)]
pub struct UnboundVariableInfo {
    pub name: InternedString,
    pub span: SpanId,
    pub suggestions: Vec<InternedString>,
}

#[derive(Debug, Clone)]
pub struct NonExhaustiveInfo {
    pub missing_patterns: Vec<String>,
    pub match_span: SpanId,
    pub scrutinee_type: TypeId,
}

/// A type error with the context needed to report it.
#[derive(Debug, Clone)]
pub enum RichTypeError {
    TypeMismatch(TypeMismatchInfo),
    OccursCheck(OccursCheckInfo),
    UnboundVariable(UnboundVariableInfo),
    NonExhaustivePatterns(NonExhaustiveInfo),
    InfiniteType { var: TypeVarId, type_id: TypeId, span: SpanId },
    CannotInfer { expr: ExprId, span: SpanId, reason: String },
    ProtectedVariableFailure {
        protected_var: TypeVarId,
        conflicting_type: TypeId,
        var_span: SpanId,
        type_span: SpanId,
    },
    ArityMismatch {
        expected_type: TypeId,
        found_type: TypeId,
        expected_arity: usize,
        found_arity: usize,
        expected_span: SpanId,
        found_span: SpanId,
    },
    UniversalVariableEscape { var: TypeVarId, span: SpanId, context: String },
    UnknownConstructor { name: InternedString, span: SpanId, suggestions: Vec<InternedString> },
    FunctionSignatureMismatch {
        function_name: InternedString,
        original_scheme: TypeScheme,
        instantiated_type: TypeId,
        inferred_type: TypeId,
        inferred_expr: ExprId,
        declared_span: SpanId,
        inferred_span: SpanId,
    },
    RowMismatch {
        expected_type: TypeId,
        found_type: TypeId,
        expected_span: SpanId,
        found_span: SpanId,
        context: String,
    },
}

impl RichTypeError {
    /// Every type the error mentions is a node of `pools`.
    pub open spec fn types_valid(&self, pools: &Pools) -> bool {
        match self {
            RichTypeError::TypeMismatch(info) => pools.valid_type(info.expected_type)
                && pools.valid_type(info.found_type),
            RichTypeError::OccursCheck(info) => pools.valid_type(info.in_type),
            RichTypeError::NonExhaustivePatterns(info) => pools.valid_type(info.scrutinee_type),
            RichTypeError::InfiniteType { type_id, .. } => pools.valid_type(*type_id),
            RichTypeError::ProtectedVariableFailure { conflicting_type, .. } => pools.valid_type(
                *conflicting_type,
            ),
            RichTypeError::ArityMismatch { expected_type, found_type, .. } => pools.valid_type(
                *expected_type,
            ) && pools.valid_type(*found_type),
            RichTypeError::FunctionSignatureMismatch {
                original_scheme,
                instantiated_type,
                inferred_type,
                inferred_expr,
                ..
            } => pools.valid_type(original_scheme.ty) && pools.valid_type(*instantiated_type)
                && pools.valid_type(*inferred_type) && pools.valid_expr(*inferred_expr),
            RichTypeError::RowMismatch { expected_type, found_type, .. } => pools.valid_type(
                *expected_type,
            ) && pools.valid_type(*found_type),
            _ => true,
        }
    }

    pub proof fn lemma_valid_grow(&self, a: &Pools, b: &Pools)
        requires
            self.types_valid(a),
            a.grows_to(b),
        ensures
            self.types_valid(b),
    {
    }

    pub fn type_mismatch(
        expected_type: TypeId,
        found_type: TypeId,
        expected_span: SpanId,
        found_span: SpanId,
        expected_expr: Option<ExprId>,
        found_expr: Option<ExprId>,
        context: Option<MismatchContext>,
    ) -> (r: Self)
        ensures
            r matches RichTypeError::TypeMismatch(info) && info.expected_type == expected_type
                && info.found_type == found_type && info.expected_span == expected_span
                && info.found_span == found_span && info.expected_expr == expected_expr
                && info.found_expr == found_expr && info.context == context,
    {
        Self::TypeMismatch(
            TypeMismatchInfo {
                expected_type,
                found_type,
                expected_expr,
                found_expr,
                expected_span,
                found_span,
                context,
            },
        )
    }

    pub fn occurs_check(var: TypeVarId, in_type: TypeId, var_span: SpanId, type_span: SpanId) -> (r: Self)
        ensures
            r matches RichTypeError::OccursCheck(info) && info.var == var && info.in_type == in_type
                && info.var_span == var_span && info.type_span == type_span && info.context_expr is None,
    {
        Self::OccursCheck(OccursCheckInfo { var, in_type, var_span, type_span, context_expr: None })
    }

    pub fn unbound_variable(name: InternedString, span: SpanId) -> (r: Self)
        ensures
            r matches RichTypeError::UnboundVariable(info) && info.name == name && info.span == span
                && info.suggestions@.len() == 0,
    {
        Self::UnboundVariable(UnboundVariableInfo { name, span, suggestions: Vec::new() })
    }

    /// A failure described by a message.
    pub fn type_error(message: String, span: SpanId) -> (r: Self)
        ensures
            r matches RichTypeError::CannotInfer { expr, span: s, reason } && expr.0 == 0 && s == span
                && reason@ == message@,
    {
        Self::CannotInfer { expr: ExprId(0), span, reason: message }
    }

    pub fn non_exhaustive_patterns(missing_patterns: Vec<String>, match_span: SpanId, scrutinee_type: TypeId) -> (r: Self)
        ensures
            r matches RichTypeError::NonExhaustivePatterns(info) && info.missing_patterns@
                == missing_patterns@ && info.match_span == match_span && info.scrutinee_type
                == scrutinee_type,
    {
        Self::NonExhaustivePatterns(NonExhaustiveInfo { missing_patterns, match_span, scrutinee_type })
    }

    pub fn protected_variable_failure(
        protected_var: TypeVarId,
        conflicting_type: TypeId,
        var_span: SpanId,
        type_span: SpanId,
    ) -> (r: Self)
        ensures
            r == (RichTypeError::ProtectedVariableFailure {
                protected_var,
                conflicting_type,
                var_span,
                type_span,
            }),
    {
        Self::ProtectedVariableFailure { protected_var, conflicting_type, var_span, type_span }
    }

    pub fn arity_mismatch(
        expected_type: TypeId,
        found_type: TypeId,
        expected_arity: usize,
        found_arity: usize,
        expected_span: SpanId,
        found_span: SpanId,
    ) -> (r: Self)
        ensures
            r == (RichTypeError::ArityMismatch {
                expected_type,
                found_type,
                expected_arity,
                found_arity,
                expected_span,
                found_span,
            }),
    {
        Self::ArityMismatch {
            expected_type,
            found_type,
            expected_arity,
            found_arity,
            expected_span,
            found_span,
        }
    }

    pub fn universal_variable_escape(var: TypeVarId, span: SpanId, context: String) -> (r: Self)
        ensures
            r matches RichTypeError::UniversalVariableEscape { var: v, span: s, context: c } && v == var
                && s == span && c@ == context@,
    {
        Self::UniversalVariableEscape { var, span, context }
    }

    pub fn unknown_constructor(name: InternedString, span: SpanId) -> (r: Self)
        ensures
            r matches RichTypeError::UnknownConstructor { name: n, span: s, suggestions } && n == name
                && s == span && suggestions@.len() == 0,
    {
        Self::UnknownConstructor { name, span, suggestions: Vec::new() }
    }

    pub fn function_signature_mismatch(
        function_name: InternedString,
        original_scheme: TypeScheme,
        instantiated_type: TypeId,
        inferred_type: TypeId,
        inferred_expr: ExprId,
        declared_span: SpanId,
        inferred_span: SpanId,
    ) -> (r: Self)
        ensures
            r matches RichTypeError::FunctionSignatureMismatch {
                function_name: f,
                original_scheme: o,
                instantiated_type: it,
                inferred_type: ft,
                inferred_expr: fe,
                declared_span: ds,
                inferred_span: fs,
            } && f == function_name && o.ty == original_scheme.ty && o.quantified@
                == original_scheme.quantified@ && it == instantiated_type && ft == inferred_type && fe
                == inferred_expr && ds == declared_span && fs == inferred_span,
    {
        Self::FunctionSignatureMismatch {
            function_name,
            original_scheme,
            instantiated_type,
            inferred_type,
            inferred_expr,
            declared_span,
            inferred_span,
        }
    }

    pub fn row_mismatch(
        expected_type: TypeId,
        found_type: TypeId,
        expected_span: SpanId,
        found_span: SpanId,
        context: String,
    ) -> (r: Self)
        ensures
            r matches RichTypeError::RowMismatch {
                expected_type: e,
                found_type: f,
                expected_span: es,
                found_span: fs,
                context: c,
            } && e == expected_type && f == found_type && es == expected_span && fs == found_span
                && c@ == context@,
    {
        Self::RowMismatch { expected_type, found_type, expected_span, found_span, context }
    }

    pub open spec fn spec_primary_span(&self) -> SpanId {
        match self {
            RichTypeError::TypeMismatch(info) => info.found_span,
            RichTypeError::OccursCheck(info) => info.var_span,
            RichTypeError::UnboundVariable(info) => info.span,
            RichTypeError::NonExhaustivePatterns(info) => info.match_span,
            RichTypeError::InfiniteType { span, .. } => *span,
            RichTypeError::CannotInfer { span, .. } => *span,
            RichTypeError::UniversalVariableEscape { span, .. } => *span,
            RichTypeError::UnknownConstructor { span, .. } => *span,
            RichTypeError::ProtectedVariableFailure { var_span, .. } => *var_span,
            RichTypeError::ArityMismatch { found_span, .. } => *found_span,
            RichTypeError::RowMismatch { found_span, .. } => *found_span,
            RichTypeError::FunctionSignatureMismatch { inferred_span, .. } => *inferred_span,
        }
    }

    /// The span an error is reported at.
    pub fn primary_span(&self) -> (r: SpanId)
        ensures
            r == self.spec_primary_span(),
    {
        match self {
            RichTypeError::TypeMismatch(info) => info.found_span,
            RichTypeError::OccursCheck(info) => info.var_span,
            RichTypeError::UnboundVariable(info) => info.span,
            RichTypeError::NonExhaustivePatterns(info) => info.match_span,
            RichTypeError::InfiniteType { span, .. } => *span,
            RichTypeError::CannotInfer { span, .. } => *span,
            RichTypeError::UniversalVariableEscape { span, .. } => *span,
            RichTypeError::UnknownConstructor { span, .. } => *span,
            RichTypeError::ProtectedVariableFailure { var_span, .. } => *var_span,
            RichTypeError::ArityMismatch { found_span, .. } => *found_span,
            RichTypeError::RowMismatch { found_span, .. } => *found_span,
            RichTypeError::FunctionSignatureMismatch { inferred_span, .. } => *inferred_span,
        }
    }
}

/// The name of a type variable: its own name, or `α` and its number.
pub open spec fn var_name_text(pools: &Pools, var: TypeVarId) -> Seq<char> {
    match var.1 {
        Some(name) => pools.interner.text_of(name),
        None => seq!['α'] + nat_digits(var.0 as nat),
    }
}

/// The name of a type variable: its own name, or `α` and its number.
pub fn format_type_var_name(var: &TypeVarId, pools: &Pools) -> (r: Vec<char>)
    ensures
        r@ == var_name_text(pools, *var),
{
    match var.1 {
        Some(name) => pools.name_chars(name),
        None => {
            let mut out: Vec<char> = Vec::new();
            out.push('α');
            push_usize(&mut out, var.0);
            assert(out@ =~= var_name_text(pools, *var));
            out
        },
    }
}

/// Where an error is: `start:end`, or `unknown location` for the empty range at 0.
pub open spec fn location_text(pools: &Pools, span: SpanId) -> Seq<char> {
    let (start, end) = pools.span_range(span.0 as int);
    if start == 0 && end == 0 {
        "unknown location"@
    } else {
        nat_digits(start as nat) + seq![':'] + nat_digits(end as nat)
    }
}

/// Whether `prefix` is how `text` begins.
pub open spec fn starts_with(text: Seq<char>, prefix: Seq<char>) -> bool {
    prefix.len() <= text.len() && text.subrange(0, prefix.len() as int) == prefix
}

/// The texts of `items` separated by `sep`.
pub open spec fn joined(items: Seq<Seq<char>>, sep: Seq<char>) -> Seq<char>
    decreases items.len(),
{
    if items.len() == 0 {
        Seq::empty()
    } else if items.len() == 1 {
        items[0]
    } else {
        joined(items.drop_last(), sep) + sep + items.last()
    }
}

/// The source range of a span; a span these pools do not hold has the empty range at 0.
pub fn span_bounds(pools: &Pools, span: SpanId) -> (r: (usize, usize))
    requires
        pools.wf(),
    ensures
        r.0 as int == pools.span_range(span.0 as int).0,
        r.1 as int == pools.span_range(span.0 as int).1,
{
    if span.0 < pools.localizations.len() {
        pools.resolve_span(span)
    } else {
        (0, 0)
    }
}

/// Appends `location_text`.
fn push_location(out: &mut Vec<char>, pools: &Pools, span: SpanId)
    requires
        pools.wf(),
    ensures
        final(out)@ == old(out)@ + location_text(pools, span),
{
    let (start, end) = span_bounds(pools, span);
    if start == 0 && end == 0 {
        push_str(out, "unknown location");
    } else {
        let ghost o = out@;
        push_usize(out, start);
        out.push(':');
        push_usize(out, end);
        assert(out@ =~= o + location_text(pools, span));
    }
}

/// Appends the texts of `items` separated by `sep`.
pub fn push_joined(out: &mut Vec<char>, items: &Vec<String>, sep: &str)
    ensures
        final(out)@ == old(out)@ + joined(items@.map_values(|s: String| s@), sep@),
{
    let ghost o = out@;
    let ghost all = items@.map_values(|s: String| s@);
    let mut i: usize = 0;
    while i < items.len()
        invariant
            i <= items@.len(),
            all == items@.map_values(|s: String| s@),
            out@ == o + joined(all.subrange(0, i as int), sep@),
        decreases items.len() - i,
    {
        let ghost before = out@;
        if i > 0 {
            push_str(out, sep);
        }
        let t = str_to_chars(items[i].as_str());
        push_chars(out, &t);
        proof {
            let pre = all.subrange(0, i as int);
            let next = all.subrange(0, i + 1);
            assert(next.drop_last() =~= pre);
            assert(next.last() == t@);
            if i == 0 {
                assert(out@ =~= o + joined(next, sep@));
            } else {
                assert(out@ =~= o + joined(next, sep@));
            }
        }
        i = i + 1;
    }
    assert(all.subrange(0, items@.len() as int) =~= all);
}

/// A type as `display_type` shows it.
pub open spec fn shown_type(pools: &Pools, t: TypeId) -> Seq<char> {
    type_text(pools, t.0 as int, Seq::empty(), 0).0
}

impl RichTypeError {
    /// The one-line report of the error.
    pub open spec fn location_message(&self, pools: &Pools) -> Seq<char> {
        let loc = location_text(pools, self.spec_primary_span());
        match self {
            RichTypeError::TypeMismatch(info) => "Type mismatch at "@ + loc + ": expected "@ + shown_type(
                pools,
                info.expected_type,
            ) + ", found "@ + shown_type(pools, info.found_type),
            RichTypeError::OccursCheck(info) => "Occurs check failed at "@ + loc + ": "@ + "variable α"@
                + nat_digits(info.var.0 as nat) + " occurs in "@ + shown_type(pools, info.in_type),
            RichTypeError::UnboundVariable(info) => "Unbound variable '"@ + pools.interner.text_of(info.name)
                + "' at "@ + loc,
            RichTypeError::CannotInfer { reason, .. } => reason@ + " at "@ + loc,
            RichTypeError::ProtectedVariableFailure { protected_var, conflicting_type, .. } =>
                "Protected variable '"@ + var_name_text(pools, *protected_var) + "' cannot be unified with '"@
                + shown_type(pools, *conflicting_type) + "' at "@ + loc,
            RichTypeError::ArityMismatch { expected_type, found_type, expected_arity, found_arity, .. } =>
                "Arity mismatch: expected "@ + shown_type(pools, *expected_type) + " with "@ + nat_digits(
                *expected_arity as nat,
            ) + " parameters, found "@ + shown_type(pools, *found_type) + " with "@ + nat_digits(
                *found_arity as nat,
            ) + " parameters at "@ + loc,
            RichTypeError::UniversalVariableEscape { var, context, .. } => "Universal variable '"@
                + var_name_text(pools, *var) + "' escapes scope in "@ + context@ + " at "@ + loc,
            RichTypeError::UnknownConstructor { name, .. } => "Unknown constructor '"@
                + pools.interner.text_of(*name) + "' at "@ + loc,
            RichTypeError::FunctionSignatureMismatch { function_name, instantiated_type, inferred_type, .. } =>
                "Function '"@ + pools.interner.text_of(*function_name) + "' signature mismatch at "@ + loc
                + ": expected instantiated type '"@ + shown_type(pools, *instantiated_type)
                + "', but function body inferred type '"@ + shown_type(pools, *inferred_type) + "'"@,
            RichTypeError::RowMismatch { expected_type, found_type, context, .. } => "Row type mismatch at "@
                + loc + ": expected '"@ + shown_type(pools, *expected_type) + "', found '"@ + shown_type(
                pools,
                *found_type,
            ) + "' ("@ + context@ + ")"@,
            RichTypeError::NonExhaustivePatterns(info) => "NonExhaustivePatterns: Missing patterns "@ + joined(
                info.missing_patterns@.map_values(|s: String| s@),
                ", "@,
            ) + " at "@ + loc,
            RichTypeError::InfiniteType { .. } => "todo"@,
        }
    }

    /// The error in one line, with the location of its primary span.
    pub fn display_with_location(&self, pools: &Pools) -> (r: String)
        requires
            pools.wf(),
            self.types_valid(pools),
        ensures
            r@ == self.location_message(pools),
    {
        let mut out: Vec<char> = Vec::new();
        let span = self.primary_span();
        match self {
            RichTypeError::TypeMismatch(info) => {
                push_str(&mut out, "Type mismatch at ");
                push_location(&mut out, pools, span);
                push_str(&mut out, ": expected ");
                let t = pools.display_type_chars(info.expected_type);
                push_chars(&mut out, &t);
                push_str(&mut out, ", found ");
                let t = pools.display_type_chars(info.found_type);
                push_chars(&mut out, &t);
            },
            RichTypeError::OccursCheck(info) => {
                push_str(&mut out, "Occurs check failed at ");
                push_location(&mut out, pools, span);
                push_str(&mut out, ": ");
                push_str(&mut out, "variable α");
                push_usize(&mut out, info.var.0);
                push_str(&mut out, " occurs in ");
                let t = pools.display_type_chars(info.in_type);
                push_chars(&mut out, &t);
            },
            RichTypeError::UnboundVariable(info) => {
                push_str(&mut out, "Unbound variable '");
                let t = pools.name_chars(info.name);
                push_chars(&mut out, &t);
                push_str(&mut out, "' at ");
                push_location(&mut out, pools, span);
            },
            RichTypeError::CannotInfer { reason, .. } => {
                let t = str_to_chars(reason.as_str());
                push_chars(&mut out, &t);
                push_str(&mut out, " at ");
                push_location(&mut out, pools, span);
            },
            RichTypeError::ProtectedVariableFailure { protected_var, conflicting_type, .. } => {
                push_str(&mut out, "Protected variable '");
                let t = format_type_var_name(protected_var, pools);
                push_chars(&mut out, &t);
                push_str(&mut out, "' cannot be unified with '");
                let t = pools.display_type_chars(*conflicting_type);
                push_chars(&mut out, &t);
                push_str(&mut out, "' at ");
                push_location(&mut out, pools, span);
            },
            RichTypeError::ArityMismatch { expected_type, found_type, expected_arity, found_arity, .. } => {
                push_str(&mut out, "Arity mismatch: expected ");
                let t = pools.display_type_chars(*expected_type);
                push_chars(&mut out, &t);
                push_str(&mut out, " with ");
                push_usize(&mut out, *expected_arity);
                push_str(&mut out, " parameters, found ");
                let t = pools.display_type_chars(*found_type);
                push_chars(&mut out, &t);
                push_str(&mut out, " with ");
                push_usize(&mut out, *found_arity);
                push_str(&mut out, " parameters at ");
                push_location(&mut out, pools, span);
            },
            RichTypeError::UniversalVariableEscape { var, context, .. } => {
                push_str(&mut out, "Universal variable '");
                let t = format_type_var_name(var, pools);
                push_chars(&mut out, &t);
                push_str(&mut out, "' escapes scope in ");
                let t = str_to_chars(context.as_str());
                push_chars(&mut out, &t);
                push_str(&mut out, " at ");
                push_location(&mut out, pools, span);
            },
            RichTypeError::UnknownConstructor { name, .. } => {
                push_str(&mut out, "Unknown constructor '");
                let t = pools.name_chars(*name);
                push_chars(&mut out, &t);
                push_str(&mut out, "' at ");
                push_location(&mut out, pools, span);
            },
            RichTypeError::FunctionSignatureMismatch { function_name, instantiated_type, inferred_type, .. } => {
                push_str(&mut out, "Function '");
                let t = pools.name_chars(*function_name);
                push_chars(&mut out, &t);
                push_str(&mut out, "' signature mismatch at ");
                push_location(&mut out, pools, span);
                push_str(&mut out, ": expected instantiated type '");
                let t = pools.display_type_chars(*instantiated_type);
                push_chars(&mut out, &t);
                push_str(&mut out, "', but function body inferred type '");
                let t = pools.display_type_chars(*inferred_type);
                push_chars(&mut out, &t);
                push_str(&mut out, "'");
            },
            RichTypeError::RowMismatch { expected_type, found_type, context, .. } => {
                push_str(&mut out, "Row type mismatch at ");
                push_location(&mut out, pools, span);
                push_str(&mut out, ": expected '");
                let t = pools.display_type_chars(*expected_type);
                push_chars(&mut out, &t);
                push_str(&mut out, "', found '");
                let t = pools.display_type_chars(*found_type);
                push_chars(&mut out, &t);
                push_str(&mut out, "' (");
                let t = str_to_chars(context.as_str());
                push_chars(&mut out, &t);
                push_str(&mut out, ")");
            },
            RichTypeError::NonExhaustivePatterns(info) => {
                push_str(&mut out, "NonExhaustivePatterns: Missing patterns ");
                push_joined(&mut out, &info.missing_patterns, ", ");
                push_str(&mut out, " at ");
                push_location(&mut out, pools, span);
            },
            RichTypeError::InfiniteType { .. } => {
                push_str(&mut out, "todo");
            },
        }
        assert(out@ =~= self.location_message(pools));
        chars_to_string(&out)
    }
}

// ----- editor-style reports ------------------------------------------------

/// The number of newlines in `s`.
pub open spec fn count_newlines(s: Seq<char>) -> nat
    decreases s.len(),
{
    if s.len() == 0 {
        0
    } else {
        count_newlines(s.drop_last()) + if s.last() == '\n' {
            1nat
        } else {
            0nat
        }
    }
}

/// The position of the last newline of `s`, or -1.
pub open spec fn last_newline(s: Seq<char>) -> int
    decreases s.len(),
{
    if s.len() == 0 {
        -1
    } else if s.last() == '\n' {
        s.len() - 1
    } else {
        last_newline(s.drop_last())
    }
}

/// `filename:line:column` of the start of `span` in `source` (lines and
/// columns counted from 1), or `filename:1:1` when the span starts past the end.
pub open spec fn emacs_position(pools: &Pools, span: SpanId, source: Seq<char>, filename: Seq<char>) -> Seq<char> {
    let start = pools.span_range(span.0 as int).0;
    if start >= source.len() || start < 0 {
        filename + ":1:1"@
    } else {
        let before = source.subrange(0, start);
        let col = if last_newline(before) >= 0 {
            start - last_newline(before)
        } else {
            start + 1
        };
        filename + seq![':'] + nat_digits(count_newlines(before) + 1) + seq![':'] + nat_digits(col as nat)
    }
}

/// The line count and the position of the last newline before position `end`.
fn scan_lines(source: &Vec<char>, end: usize) -> (r: (usize, Option<usize>))
    requires
        end <= source@.len(),
    ensures
        r.0 as int == count_newlines(source@.subrange(0, end as int)),
        r.1 matches Some(k) ==> k as int == last_newline(source@.subrange(0, end as int)),
        r.1 is None ==> last_newline(source@.subrange(0, end as int)) == -1,
        r.0 <= end,
        r.1 matches Some(k) ==> k < end,
{
    let mut count: usize = 0;
    let mut last: Option<usize> = None;
    let mut i: usize = 0;
    while i < end
        invariant
            i <= end <= source@.len(),
            count as int == count_newlines(source@.subrange(0, i as int)),
            count <= i,
            last matches Some(k) ==> k < i,
            last matches Some(k) ==> k as int == last_newline(source@.subrange(0, i as int)),
            last is None ==> last_newline(source@.subrange(0, i as int)) == -1,
        decreases end - i,
    {
        assert(source@.subrange(0, i + 1).drop_last() =~= source@.subrange(0, i as int));
        if source[i] == '\n' {
            count = count + 1;
            last = Some(i);
        }
        i = i + 1;
    }
    (count, last)
}

/// `filename:line:column` of the start of `span` in `source`.
pub fn format_emacs_position(span: SpanId, pools: &Pools, source: &Vec<char>, filename: &Vec<char>) -> (r: Vec<char>)
    requires
        pools.wf(),
    ensures
        r@ == emacs_position(pools, span, source@, filename@),
{
    let (start, _) = span_bounds(pools, span);
    let mut out: Vec<char> = Vec::new();
    push_chars(&mut out, filename);
    if start >= source.len() {
        push_str(&mut out, ":1:1");
        return out;
    }
    let (count, last) = scan_lines(source, start);
    let col = match last {
        Some(k) => start - k,
        None => start + 1,
    };
    out.push(':');
    push_usize(&mut out, count + 1);
    out.push(':');
    push_usize(&mut out, col);
    assert(out@ =~= emacs_position(pools, span, source@, filename@));
    out
}

/// A line without its carriage return at the end, if it has one.
pub open spec fn strip_cr(line: Seq<char>) -> Seq<char> {
    if line.len() > 0 && line.last() == '\r' {
        line.drop_last()
    } else {
        line
    }
}

/// The finished lines and the line under way after the first `i` characters of `s`:
/// a newline ends a line.
pub open spec fn lines_upto(s: Seq<char>, i: int) -> (Seq<Seq<char>>, Seq<char>)
    decreases i,
{
    if i <= 0 {
        (Seq::empty(), Seq::empty())
    } else {
        let (done, cur) = lines_upto(s, i - 1);
        if s[i - 1] == '\n' {
            (done.push(strip_cr(cur)), Seq::empty())
        } else {
            (done, cur.push(s[i - 1]))
        }
    }
}

/// The lines of `s`, split at newlines, each without a carriage return at its end;
/// a last line without a newline counts when it is not empty.
pub open spec fn split_lines(s: Seq<char>) -> Seq<Seq<char>> {
    let (done, cur) = lines_upto(s, s.len() as int);
    if cur.len() > 0 {
        done.push(strip_cr(cur))
    } else {
        done
    }
}

/// The lines of the source text, as [`split_lines`] gives them.
pub fn source_lines(source: &Vec<char>) -> (r: Vec<Vec<char>>)
    ensures
        r@.map_values(|l: Vec<char>| l@) == split_lines(source@),
        r@.len() <= source@.len() + 1,
{
    let mut lines: Vec<Vec<char>> = Vec::new();
    let mut current: Vec<char> = Vec::new();
    let mut i: usize = 0;
    while i < source.len()
        invariant
            i <= source@.len(),
            lines@.len() <= i,
            lines@.map_values(|l: Vec<char>| l@) == lines_upto(source@, i as int).0,
            current@ == lines_upto(source@, i as int).1,
        decreases source.len() - i,
    {
        let ghost old_lines = lines@;
        let ghost cur0 = current@;
        if source[i] == '\n' {
            if current.len() > 0 && current[current.len() - 1] == '\r' {
                current.pop();
            }
            proof {
                assert(current@ =~= strip_cr(cur0));
            }
            lines.push(current);
            current = Vec::new();
            proof {
                assert(lines@.map_values(|l: Vec<char>| l@) =~= old_lines.map_values(|l: Vec<char>| l@).push(strip_cr(cur0)));
            }
        } else {
            current.push(source[i]);
        }
        i = i + 1;
    }
    let ghost old_lines = lines@;
    let ghost cur0 = current@;
    if current.len() > 0 {
        if current[current.len() - 1] == '\r' {
            current.pop();
        }
        proof {
            assert(current@ =~= strip_cr(cur0));
        }
        lines.push(current);
        proof {
            assert(lines@.map_values(|l: Vec<char>| l@) =~= old_lines.map_values(|l: Vec<char>| l@).push(strip_cr(cur0)));
        }
    }
    lines
}

/// A line number right-aligned in three columns.
pub open spec fn width3(n: nat) -> Seq<char> {
    (if n < 10 {
        "  "@
    } else if n < 100 {
        " "@
    } else {
        Seq::empty()
    }) + nat_digits(n)
}

fn push_width3(out: &mut Vec<char>, n: usize)
    ensures
        final(out)@ == old(out)@ + width3(n as nat),
{
    let ghost o = out@;
    if n < 10 {
        push_str(out, "  ");
    } else if n < 100 {
        push_str(out, " ");
    }
    push_usize(out, n);
    assert(out@ =~= o + width3(n as nat));
}

/// `n` copies of `c`.
pub open spec fn repeat_char(c: char, n: int) -> Seq<char> {
    Seq::new(if n > 0 { n as nat } else { 0 }, |i: int| c)
}

/// The listing of lines `idx..end` (numbered from 1); line `mark` is flagged with `>`
/// and followed by a line that underlines columns `from..to`.
pub open spec fn context_lines(lines: Seq<Seq<char>>, idx: int, end: int, mark: int, from: int, to: int) -> Seq<char>
    decreases end - idx,
{
    if idx >= end || idx < 0 || end > lines.len() {
        Seq::empty()
    } else {
        let num = (idx + 1) as nat;
        let here = if idx + 1 == mark {
            "> "@ + width3(num) + " | "@ + lines[idx] + "\n"@ + "     | "@ + repeat_char(' ', from) + repeat_char(
                '^',
                to - from,
            ) + "\n"@
        } else {
            "  "@ + width3(num) + " | "@ + lines[idx] + "\n"@
        };
        here + context_lines(lines, idx + 1, end, mark, from, to)
    }
}

/// The lines around the start of `span`: two before and two after its line, which is
/// flagged and underlined from the span's column for the span's width (to the end of
/// the line at most, one column for an empty span); empty when the span starts past
/// the end of the source.
pub open spec fn miette_context(pools: &Pools, span: SpanId, source: Seq<char>) -> Seq<char> {
    let (start, end) = pools.span_range(span.0 as int);
    let lines = split_lines(source);
    if start >= source.len() || start < 0 {
        Seq::empty()
    } else {
        let before = source.subrange(0, start);
        let line_num = count_newlines(before) + 1;
        if line_num > lines.len() {
            Seq::empty()
        } else {
            let err = line_num - 1;
            let from = start - (last_newline(before) + 1);
            let line_len = lines[err].len() as int;
            let to = if end > start {
                if from + (end - start) <= line_len {
                    from + (end - start)
                } else {
                    line_len
                }
            } else {
                from + 1
            };
            let first = if err >= 2 {
                err - 2
            } else {
                0
            };
            let last = if lines.len() - err < 3 {
                lines.len() as int
            } else {
                err + 3
            };
            context_lines(lines, first, last, line_num as int, from, to)
        }
    }
}

/// The lines around `span` with line numbers, the span's line marked with `>`
/// and its characters underlined with `^`; empty when the span starts past the end.
pub fn format_miette_context(span: SpanId, pools: &Pools, source_code: &Vec<char>) -> (r: Vec<char>)
    requires
        pools.wf(),
    ensures
        r@ == miette_context(pools, span, source_code@),
{
    let (start, end) = span_bounds(pools, span);
    let mut result: Vec<char> = Vec::new();
    if start >= source_code.len() {
        return result;
    }
    let (count, last) = scan_lines(source_code, start);
    let line_num = count + 1;
    let lines = source_lines(source_code);
    let ghost ls = split_lines(source_code@);
    proof {
        assert forall|k: int| 0 <= k < lines@.len() implies #[trigger] lines@[k]@ == ls[k] by {
            assert(lines@.map_values(|l: Vec<char>| l@)[k] == lines@[k]@);
        }
    }
    if line_num > lines.len() {
        return result;
    }
    let error_line_idx = line_num - 1;
    let context_start = if error_line_idx >= 2 { error_line_idx - 2 } else { 0 };
    let context_end = if lines.len() - error_line_idx < 3 { lines.len() } else { error_line_idx + 3 };
    let line_start = match last {
        Some(k) => k + 1,
        None => 0,
    };
    let error_start_col = if start >= line_start { start - line_start } else { 0 };
    let error_len = lines[error_line_idx].len();
    let error_end_col = if end > start {
        let width = end - start;
        if width <= error_len && error_start_col <= error_len - width {
            error_start_col + width
        } else {
            error_len
        }
    } else if error_start_col < usize::MAX {
        error_start_col + 1
    } else {
        error_start_col
    };
    proof {
        assert(error_start_col as int == start - (last_newline(source_code@.subrange(0, start as int)) + 1));
    }
    let ghost total = context_lines(ls, context_start as int, context_end as int, line_num as int, error_start_col as int, error_end_col as int);
    let mut idx = context_start;
    while idx < context_end
        invariant
            context_end <= lines@.len(),
            lines@.len() == ls.len(),
            forall|k: int| 0 <= k < lines@.len() ==> #[trigger] lines@[k]@ == ls[k],
            context_start <= idx,
            idx <= context_end || context_start >= context_end,
            error_line_idx < lines@.len(),
            line_num == error_line_idx + 1,
            error_len == lines@[error_line_idx as int]@.len(),
            result@ + context_lines(ls, idx as int, context_end as int, line_num as int, error_start_col as int, error_end_col as int) == total,
        decreases context_end - idx,
    {
        let ghost r0 = result@;
        let actual_line_num = idx + 1;
        let line = &lines[idx];
        if actual_line_num == line_num {
            push_str(&mut result, "> ");
            push_width3(&mut result, actual_line_num);
            push_str(&mut result, " | ");
            push_chars(&mut result, line);
            push_str(&mut result, "\n");
            push_str(&mut result, "     | ");
            assert(line@ == ls[idx as int]);
            let mut c: usize = 0;
            let ghost r1 = result@;
            assert(r1 =~= r0 + ("> "@ + width3(actual_line_num as nat) + " | "@ + ls[idx as int] + "\n"@ + "     | "@));
            while c < error_start_col
                invariant
                    c <= error_start_col,
                    result@ == r1 + repeat_char(' ', c as int),
                decreases error_start_col - c,
            {
                result.push(' ');
                proof {
                    assert(result@ =~= r1 + repeat_char(' ', c + 1));
                }
                c = c + 1;
            }
            let ghost r2 = result@;
            let mut c: usize = error_start_col;
            while c < error_end_col
                invariant
                    error_start_col <= c,
                    c <= error_end_col || c == error_start_col,
                    result@ == r2 + repeat_char('^', c - error_start_col),
                decreases error_end_col - c,
            {
                result.push('^');
                proof {
                    assert(result@ =~= r2 + repeat_char('^', c + 1 - error_start_col));
                }
                c = c + 1;
            }
            proof {
                assert(repeat_char('^', c - error_start_col) =~= repeat_char('^', error_end_col - error_start_col));
                assert(r2 == r1 + repeat_char(' ', error_start_col as int));
            }
            push_str(&mut result, "\n");
            proof {
                let head = "> "@ + width3(actual_line_num as nat) + " | "@ + ls[idx as int] + "\n"@ + "     | "@;
                let sp = repeat_char(' ', error_start_col as int);
                let up = repeat_char('^', error_end_col - error_start_col);
                assert(result@ =~= r0 + head + sp + up + "\n"@);
                assert(head + sp + up + "\n"@ =~= "> "@ + width3(actual_line_num as nat) + " | "@ + ls[idx as int] + "\n"@ + "     | "@
                    + repeat_char(' ', error_start_col as int) + repeat_char('^', error_end_col - error_start_col) + "\n"@);
                assert(result@ =~= r0 + ("> "@ + width3(actual_line_num as nat) + " | "@ + ls[idx as int] + "\n"@ + "     | "@
                    + repeat_char(' ', error_start_col as int) + repeat_char('^', error_end_col - error_start_col) + "\n"@));
            }
        } else {
            push_str(&mut result, "  ");
            push_width3(&mut result, actual_line_num);
            push_str(&mut result, " | ");
            push_chars(&mut result, line);
            push_str(&mut result, "\n");
            proof {
                assert(result@ =~= r0 + ("  "@ + width3(actual_line_num as nat) + " | "@ + ls[idx as int] + "\n"@));
            }
        }
        idx = idx + 1;
    }
    proof {
        assert(result@ =~= total);
    }
    result
}

/// The names of the variables `q`, separated by spaces.
pub open spec fn var_names(pools: &Pools, q: Seq<TypeVarId>) -> Seq<char>
    decreases q.len(),
{
    if q.len() == 0 {
        Seq::empty()
    } else {
        var_names(pools, q.drop_last()) + (if q.len() > 1 {
            " "@
        } else {
            Seq::empty()
        }) + var_name_text(pools, q.last())
    }
}

/// `∀a b. ` for the quantified variables `q`, or nothing when there are none.
pub open spec fn quantifier_prefix(pools: &Pools, q: Seq<TypeVarId>) -> Seq<char> {
    if q.len() == 0 {
        Seq::empty()
    } else {
        "∀"@ + var_names(pools, q) + ". "@
    }
}

/// A scheme as the listing of the inference state shows it.
pub open spec fn scheme_listing(pools: &Pools, scheme: TypeScheme) -> Seq<char> {
    quantifier_prefix(pools, scheme.quantified@) + shown_type(pools, scheme.ty)
}

/// Appends [`quantifier_prefix`] for the quantified variables of a scheme.
fn push_quantifier_prefix(out: &mut Vec<char>, scheme: &TypeScheme, pools: &Pools)
    ensures
        final(out)@ == old(out)@ + quantifier_prefix(pools, scheme.quantified@),
{
    if scheme.quantified.len() > 0 {
        push_str(out, "∀");
        let ghost head = out@;
        let mut k: usize = 0;
        while k < scheme.quantified.len()
            invariant
                k <= scheme.quantified@.len(),
                out@ == head + var_names(pools, scheme.quantified@.subrange(0, k as int)),
            decreases scheme.quantified@.len() - k,
        {
            let ghost o = out@;
            if k > 0 {
                push_str(out, " ");
            }
            let t = format_type_var_name(&scheme.quantified[k], pools);
            push_chars(out, &t);
            proof {
                let sub = scheme.quantified@.subrange(0, k + 1);
                assert(sub.drop_last() =~= scheme.quantified@.subrange(0, k as int));
                assert(out@ =~= head + var_names(pools, sub));
            }
            k = k + 1;
        }
        assert(scheme.quantified@.subrange(0, scheme.quantified@.len() as int) =~= scheme.quantified@);
        push_str(out, ". ");
    } else {
        assert(old(out)@ + quantifier_prefix(pools, scheme.quantified@) =~= old(out)@);
    }
}

/// `  Var#i : scheme` lines for the first `n` schemes.
pub open spec fn local_lines(pools: &Pools, schemes: Seq<TypeScheme>, n: int) -> Seq<char>
    decreases n,
{
    if n <= 0 {
        Seq::empty()
    } else {
        local_lines(pools, schemes, n - 1) + "  Var#"@ + nat_digits((n - 1) as nat) + " : "@ + scheme_listing(
            pools,
            schemes[n - 1],
        ) + "\n"@
    }
}

/// `  α = type` lines for the first `n` bindings of a substitution.
pub open spec fn subst_lines(pools: &Pools, subst: Seq<(usize, TypeId)>, n: int) -> Seq<char>
    decreases n,
{
    if n <= 0 {
        Seq::empty()
    } else {
        subst_lines(pools, subst, n - 1) + "  "@ + var_name_text(pools, TypeVarId(subst[n - 1].0, None)) + " = "@
            + shown_type(pools, subst[n - 1].1) + "\n"@
    }
}

/// No entry before `i` is for the expression of entry `i`.
pub open spec fn first_entry(et: Seq<(ExprId, TypeId)>, i: int) -> bool {
    forall|j: int| 0 <= j < i ==> et[j].0 != et[i].0
}

/// The types recorded for expression `id` among the entries `from..k`, as shown.
pub open spec fn types_for(pools: &Pools, et: Seq<(ExprId, TypeId)>, id: ExprId, from: int, k: int) -> Seq<Seq<char>>
    decreases k - from,
{
    if k <= from {
        Seq::empty()
    } else if et[k - 1].0 == id {
        types_for(pools, et, id, from, k - 1).push(shown_type(pools, et[k - 1].1))
    } else {
        types_for(pools, et, id, from, k - 1)
    }
}

/// One line for each expression among the first `n` entries with a type recorded, at
/// its first entry: its position, its text and all the types recorded for it.
pub open spec fn expr_type_lines(pools: &Pools, et: Seq<(ExprId, TypeId)>, source: Seq<char>, file: Seq<char>, n: int) -> Seq<char>
    decreases n,
{
    if n <= 0 {
        Seq::empty()
    } else {
        let i = n - 1;
        let id = et[i].0;
        expr_type_lines(pools, et, source, file, n - 1) + if first_entry(et, i) && id.0 < pools.exprs@.len() {
            "  "@ + emacs_position(pools, pools.exprs@[id.0 as int].spec_span(), source, file) + ": "@ + expr_text(
                *pools,
                id.0 as int,
            ) + " : "@ + joined(types_for(pools, et, id, i, et.len() as int), ", "@) + "\n"@
        } else {
            Seq::empty()
        }
    }
}

/// `  name : scheme` lines for the first `n` globals, in order of declaration, that
/// have a scheme.
pub open spec fn global_lines(pools: &Pools, n: int) -> Seq<char>
    decreases n,
{
    if n <= 0 {
        Seq::empty()
    } else {
        let name = pools.global_order@[n - 1];
        global_lines(pools, n - 1) + match crate::pools::assoc_get(pools.globals@, name) {
            Some(scheme) => "  "@ + pools.interner.text_of(name) + " : "@ + scheme_listing(pools, scheme) + "\n"@,
            None => Seq::empty(),
        }
    }
}

/// The listing of the inference state: local schemes, substitutions, the types
/// recorded per expression and the schemes of the globals, each section that has
/// entries under its heading.
pub open spec fn typing_context_text(ctx: &PooledTypingContext, pools: &Pools, source: Seq<char>, file: Seq<char>) -> Seq<char> {
    "Type inference context:\n"@ + (if ctx.type_schemes@.len() > 0 {
        "Local variables (De Bruijn indexed):\n"@ + local_lines(pools, ctx.type_schemes@, ctx.type_schemes@.len() as int)
            + "\n"@
    } else {
        Seq::empty()
    }) + (if ctx.substitutions@.len() > 0 {
        "Unifications:\n"@ + subst_lines(pools, ctx.substitutions@, ctx.substitutions@.len() as int) + "\n"@
    } else {
        Seq::empty()
    }) + (if ctx.expr_types@.len() > 0 {
        "Expression types:\n"@ + expr_type_lines(pools, ctx.expr_types@, source, file, ctx.expr_types@.len() as int)
            + "\n"@
    } else {
        Seq::empty()
    }) + "Global functions:\n"@ + global_lines(pools, pools.global_order@.len() as int)
}

proof fn lemma_joined_push(items: Seq<Seq<char>>, sep: Seq<char>, x: Seq<char>)
    ensures
        joined(items.push(x), sep) == if items.len() == 0 {
            x
        } else {
            joined(items, sep) + sep + x
        },
{
    assert(items.push(x).drop_last() =~= items);
    if items.len() == 0 {
        assert(items.push(x)[0] == x);
    }
}

/// A listing of the inference state: local schemes, substitutions, the types
/// recorded per expression and the schemes of the globals.
pub fn format_typing_context(
    typing_ctx: &PooledTypingContext,
    pools: &Pools,
    source_code: &Vec<char>,
    filename: &Vec<char>,
) -> (r: Vec<char>)
    requires
        pools.wf(),
        typing_ctx.wf_in(pools),
    ensures
        r@ == typing_context_text(typing_ctx, pools, source_code@, filename@),
{
    let mut out = str_to_chars("Type inference context:\n");
    let ghost sec0 = out@;
    if typing_ctx.type_schemes.len() > 0 {
        push_str(&mut out, "Local variables (De Bruijn indexed):\n");
        let ghost h = out@;
        let mut i: usize = 0;
        while i < typing_ctx.type_schemes.len()
            invariant
                i <= typing_ctx.type_schemes@.len(),
                pools.wf(),
                typing_ctx.wf_in(pools),
                out@ == h + local_lines(pools, typing_ctx.type_schemes@, i as int),
            decreases typing_ctx.type_schemes@.len() - i,
        {
            let scheme = &typing_ctx.type_schemes[i];
            let ghost o = out@;
            push_str(&mut out, "  Var#");
            push_usize(&mut out, i);
            push_str(&mut out, " : ");
            push_quantifier_prefix(&mut out, scheme, pools);
            assert(pools.valid_type(scheme.ty));
            let t = pools.display_type_chars(scheme.ty);
            push_chars(&mut out, &t);
            push_str(&mut out, "\n");
            proof {
                assert(out@ =~= o + ("  Var#"@ + nat_digits(i as nat) + " : "@ + scheme_listing(pools, *scheme) + "\n"@));
            }
            i = i + 1;
        }
        push_str(&mut out, "\n");
    }
    let ghost sec1 = out@;
    proof {
        assert(sec1 =~= sec0 + (if typing_ctx.type_schemes@.len() > 0 {
            "Local variables (De Bruijn indexed):\n"@ + local_lines(pools, typing_ctx.type_schemes@, typing_ctx.type_schemes@.len() as int)
                + "\n"@
        } else {
            Seq::empty()
        }));
    }
    if typing_ctx.substitutions.len() > 0 {
        push_str(&mut out, "Unifications:\n");
        let ghost h = out@;
        let mut i: usize = 0;
        while i < typing_ctx.substitutions.len()
            invariant
                i <= typing_ctx.substitutions@.len(),
                pools.wf(),
                typing_ctx.wf_in(pools),
                out@ == h + subst_lines(pools, typing_ctx.substitutions@, i as int),
            decreases typing_ctx.substitutions@.len() - i,
        {
            let (var, type_id) = typing_ctx.substitutions[i];
            let ghost o = out@;
            push_str(&mut out, "  ");
            let t = format_type_var_name(&TypeVarId(var, None), pools);
            push_chars(&mut out, &t);
            push_str(&mut out, " = ");
            assert(pools.valid_type(typing_ctx.substitutions@[i as int].1));
            let t = pools.display_type_chars(type_id);
            push_chars(&mut out, &t);
            push_str(&mut out, "\n");
            proof {
                assert(out@ =~= o + ("  "@ + var_name_text(pools, TypeVarId(var, None)) + " = "@ + shown_type(pools, type_id) + "\n"@));
            }
            i = i + 1;
        }
        push_str(&mut out, "\n");
    }
    let ghost sec2 = out@;
    proof {
        assert(sec2 =~= sec1 + (if typing_ctx.substitutions@.len() > 0 {
            "Unifications:\n"@ + subst_lines(pools, typing_ctx.substitutions@, typing_ctx.substitutions@.len() as int) + "\n"@
        } else {
            Seq::empty()
        }));
    }
    if typing_ctx.expr_types.len() > 0 {
        push_str(&mut out, "Expression types:\n");
        let ghost h = out@;
        let ghost et = typing_ctx.expr_types@;
        let mut i: usize = 0;
        while i < typing_ctx.expr_types.len()
            invariant
                i <= typing_ctx.expr_types@.len(),
                et == typing_ctx.expr_types@,
                pools.wf(),
                typing_ctx.wf_in(pools),
                out@ == h + expr_type_lines(pools, et, source_code@, filename@, i as int),
            decreases typing_ctx.expr_types@.len() - i,
        {
            let expr_id = typing_ctx.expr_types[i].0;
            let ghost o = out@;
            let mut seen = false;
            let mut j: usize = 0;
            while j < i
                invariant
                    j <= i < typing_ctx.expr_types@.len(),
                    et == typing_ctx.expr_types@,
                    expr_id == et[i as int].0,
                    seen == exists|q: int| 0 <= q < j && et[q].0 == expr_id,
                decreases i - j,
            {
                if typing_ctx.expr_types[j].0 == expr_id {
                    seen = true;
                }
                j = j + 1;
            }
            if !seen && expr_id.0 < pools.exprs.len() {
                push_str(&mut out, "  ");
                let span = pools.get_expr_span(expr_id);
                let pos = format_emacs_position(span, pools, source_code, filename);
                push_chars(&mut out, &pos);
                push_str(&mut out, ": ");
                let e = pools.display_expr_chars(expr_id);
                push_chars(&mut out, &e);
                push_str(&mut out, " : ");
                let ghost mid = out@;
                let mut k: usize = i;
                let mut first = true;
                while k < typing_ctx.expr_types.len()
                    invariant
                        i <= k <= typing_ctx.expr_types@.len(),
                        et == typing_ctx.expr_types@,
                        pools.wf(),
                        typing_ctx.wf_in(pools),
                        out@ == mid + joined(types_for(pools, et, expr_id, i as int, k as int), ", "@),
                        first == (types_for(pools, et, expr_id, i as int, k as int).len() == 0),
                    decreases typing_ctx.expr_types@.len() - k,
                {
                    let ghost before = types_for(pools, et, expr_id, i as int, k as int);
                    if typing_ctx.expr_types[k].0 == expr_id {
                        if !first {
                            push_str(&mut out, ", ");
                        }
                        first = false;
                        assert(pools.valid_type(et[k as int].1));
                        let t = pools.display_type_chars(typing_ctx.expr_types[k].1);
                        push_chars(&mut out, &t);
                        proof {
                            lemma_joined_push(before, ", "@, shown_type(pools, et[k as int].1));
                            assert(types_for(pools, et, expr_id, i as int, k + 1) == before.push(shown_type(pools, et[k as int].1)));
                        }
                    }
                    k = k + 1;
                }
                push_str(&mut out, "\n");
                proof {
                    assert(first_entry(et, i as int));
                    assert(out@ =~= o + ("  "@ + emacs_position(pools, pools.exprs@[expr_id.0 as int].spec_span(), source_code@, filename@)
                        + ": "@ + expr_text(*pools, expr_id.0 as int) + " : "@ + joined(types_for(pools, et, expr_id, i as int, et.len() as int), ", "@)
                        + "\n"@));
                }
            } else {
                proof {
                    if seen {
                        let q = choose|q: int| 0 <= q < i && et[q].0 == expr_id;
                        assert(!first_entry(et, i as int));
                    }
                    assert(out@ =~= o + Seq::<char>::empty());
                }
            }
            i = i + 1;
        }
        push_str(&mut out, "\n");
    }
    let ghost sec3 = out@;
    proof {
        assert(sec3 =~= sec2 + (if typing_ctx.expr_types@.len() > 0 {
            "Expression types:\n"@ + expr_type_lines(pools, typing_ctx.expr_types@, source_code@, filename@, typing_ctx.expr_types@.len() as int)
                + "\n"@
        } else {
            Seq::empty()
        }));
    }
    push_str(&mut out, "Global functions:\n");
    let ghost h = out@;
    let mut i: usize = 0;
    while i < pools.global_order.len()
        invariant
            i <= pools.global_order@.len(),
            pools.wf(),
            out@ == h + global_lines(pools, i as int),
        decreases pools.global_order@.len() - i,
    {
        let name = pools.global_order[i];
        let ghost o = out@;
        match pools.get_global_scheme(&name) {
            Some(scheme) => {
                push_str(&mut out, "  ");
                let t = pools.name_chars(name);
                push_chars(&mut out, &t);
                push_str(&mut out, " : ");
                push_quantifier_prefix(&mut out, &scheme, pools);
                let t = pools.display_type_chars(scheme.ty);
                push_chars(&mut out, &t);
                push_str(&mut out, "\n");
                proof {
                    crate::pools::lemma_assoc_index(pools.globals@, name);
                    let g = crate::pools::assoc_get(pools.globals@, name).unwrap();
                    assert(scheme_listing(pools, scheme) == scheme_listing(pools, g));
                    assert(out@ =~= o + ("  "@ + pools.interner.text_of(name) + " : "@ + scheme_listing(pools, g) + "\n"@));
                }
            },
            None => {
                proof {
                    assert(out@ =~= o + Seq::<char>::empty());
                }
            },
        }
        i = i + 1;
    }
    proof {
        assert(out@ =~= typing_context_text(typing_ctx, pools, source_code@, filename@));
    }
    out
}

/// The text of expression `e`, or nothing for an expression these pools do not hold.
pub open spec fn expr_shown(pools: &Pools, e: ExprId) -> Seq<char> {
    if e.0 < pools.exprs@.len() {
        expr_text(*pools, e.0 as int)
    } else {
        Seq::empty()
    }
}

/// Appends the text of expression `e`, or nothing for an expression these pools do not hold.
fn push_expr(out: &mut Vec<char>, pools: &Pools, e: ExprId)
    requires
        pools.wf(),
    ensures
        final(out)@ == old(out)@ + expr_shown(pools, e),
{
    if e.0 < pools.exprs.len() {
        let t = pools.display_expr_chars(e);
        push_chars(out, &t);
    } else {
        assert(old(out)@ + expr_shown(pools, e) =~= old(out)@);
    }
}

/// `'a', 'b'` for the names.
pub open spec fn quoted_names(pools: &Pools, names: Seq<InternedString>) -> Seq<char>
    decreases names.len(),
{
    if names.len() == 0 {
        Seq::empty()
    } else {
        quoted_names(pools, names.drop_last()) + (if names.len() > 1 {
            ", "@
        } else {
            Seq::empty()
        }) + seq!['\''] + pools.interner.text_of(names.last()) + seq!['\'']
    }
}

/// The line that offers `names` as alternatives, or nothing when there are none.
pub open spec fn suggestions_text(pools: &Pools, names: Seq<InternedString>) -> Seq<char> {
    if names.len() > 0 {
        "  Did you mean one of: "@ + quoted_names(pools, names) + seq!['\n']
    } else {
        Seq::empty()
    }
}

/// Appends `'a', 'b'` for the names.
fn push_quoted_names(out: &mut Vec<char>, names: &Vec<InternedString>, pools: &Pools)
    ensures
        final(out)@ == old(out)@ + quoted_names(pools, names@),
{
    let mut i: usize = 0;
    while i < names.len()
        invariant
            i <= names@.len(),
            out@ == old(out)@ + quoted_names(pools, names@.subrange(0, i as int)),
        decreases names@.len() - i,
    {
        let ghost o = out@;
        if i > 0 {
            push_str(out, ", ");
        }
        out.push('\'');
        let t = pools.name_chars(names[i]);
        push_chars(out, &t);
        out.push('\'');
        proof {
            let sub = names@.subrange(0, i + 1);
            assert(sub.drop_last() =~= names@.subrange(0, i as int));
            assert(sub.last() == names@[i as int]);
            assert(out@ =~= old(out)@ + quoted_names(pools, sub));
        }
        i = i + 1;
    }
    assert(names@.subrange(0, names@.len() as int) =~= names@);
}

/// The note on where a mismatch arose, one line or none.
pub open spec fn mismatch_context_text(pools: &Pools, context: Option<MismatchContext>) -> Seq<char> {
    match context {
        Some(MismatchContext::FunctionApplication { function_expr, arg_index, arg_expr, .. }) =>
            "  In function application: "@ + expr_shown(pools, function_expr) + " argument #"@ + (if arg_index
            < usize::MAX {
            nat_digits((arg_index + 1) as nat)
        } else {
            Seq::empty()
        }) + "\n"@ + "  Argument expression: "@ + expr_shown(pools, arg_expr) + "\n"@,
        Some(MismatchContext::FunctionReturn { function_name, .. }) => match function_name {
            Some(name) => "  In return type of function '"@ + pools.interner.text_of(name) + "'\n"@,
            None => Seq::empty(),
        },
        Some(MismatchContext::VariableBinding { var_name, .. }) => "  In binding of variable '"@
            + pools.interner.text_of(var_name) + "'\n"@,
        Some(MismatchContext::PatternMatch { scrutinee_expr, .. }) => "  In pattern match on: "@ + expr_shown(
            pools,
            scrutinee_expr,
        ) + "\n"@,
        Some(MismatchContext::RecordField { record_expr, field_name, .. }) => "  In field '"@
            + pools.interner.text_of(field_name) + "' of record: "@ + expr_shown(pools, record_expr) + "\n"@,
        None => Seq::empty(),
    }
}

/// The editor-style report of a type mismatch, after the position.
pub open spec fn mismatch_report(pools: &Pools, info: TypeMismatchInfo, source: Seq<char>, file: Seq<char>) -> Seq<char> {
    "Type mismatch: expected '"@ + shown_type(pools, info.expected_type) + "' but found '"@ + shown_type(
        pools,
        info.found_type,
    ) + "'\n"@ + (if info.expected_span != info.found_span {
        emacs_position(pools, info.expected_span, source, file) + ": Expected type '"@ + shown_type(
            pools,
            info.expected_type,
        ) + "' comes from here\n"@
    } else {
        Seq::empty()
    }) + mismatch_context_text(pools, info.context)
}

/// The editor-style report of a protected variable that met another type.
pub open spec fn protected_report(
    pools: &Pools,
    protected_var: TypeVarId,
    conflicting_type: TypeId,
    var_span: SpanId,
    type_span: SpanId,
    source: Seq<char>,
    file: Seq<char>,
) -> Seq<char> {
    "Protected variable '"@ + var_name_text(pools, protected_var) + "' cannot be unified with '"@ + shown_type(
        pools,
        conflicting_type,
    ) + "'\n"@ + (if var_span != type_span {
        emacs_position(pools, type_span, source, file) + ": Conflicting type '"@ + shown_type(
            pools,
            conflicting_type,
        ) + "' comes from here\n"@
    } else {
        Seq::empty()
    })
}

/// The editor-style report of types applied to different numbers of parameters.
pub open spec fn arity_report(
    pools: &Pools,
    expected_type: TypeId,
    found_type: TypeId,
    expected_arity: usize,
    found_arity: usize,
    expected_span: SpanId,
    found_span: SpanId,
    source: Seq<char>,
    file: Seq<char>,
) -> Seq<char> {
    "Arity mismatch: expected "@ + shown_type(pools, expected_type) + " with "@ + nat_digits(
        expected_arity as nat,
    ) + " parameters, found "@ + shown_type(pools, found_type) + " with "@ + nat_digits(found_arity as nat)
        + " parameters\n"@ + (if expected_span != found_span {
        emacs_position(pools, expected_span, source, file) + ": Expected type '"@ + shown_type(
            pools,
            expected_type,
        ) + "' comes from here\n"@
    } else {
        Seq::empty()
    })
}

/// The editor-style report of a function body that does not fit its declared scheme.
pub open spec fn signature_report(
    pools: &Pools,
    function_name: InternedString,
    original_scheme: TypeScheme,
    instantiated_type: TypeId,
    inferred_type: TypeId,
    inferred_expr: ExprId,
    declared_span: SpanId,
    inferred_span: SpanId,
    source: Seq<char>,
    file: Seq<char>,
) -> Seq<char> {
    "Function '"@ + pools.interner.text_of(function_name) + "' body type mismatch: expected '"@ + shown_type(
        pools,
        instantiated_type,
    ) + "' but inferred '"@ + shown_type(pools, inferred_type) + "'\n"@ + (if declared_span != inferred_span {
        emacs_position(pools, declared_span, source, file) + ": Function '"@ + pools.interner.text_of(
            function_name,
        ) + "' declared here with scheme '"@ + scheme_text(pools, original_scheme) + "'\n"@
    } else {
        Seq::empty()
    }) + "  Function body expression: "@ + expr_shown(pools, inferred_expr) + "\n"@ + "  Original scheme: "@
        + scheme_text(pools, original_scheme) + "\n"@ + "  Instantiated as: "@ + shown_type(
        pools,
        instantiated_type,
    ) + "\n"@ + "  But body inferred: "@ + shown_type(pools, inferred_type) + "\n"@
}

/// The editor-style report of two row types that do not agree.
pub open spec fn row_report(
    pools: &Pools,
    expected_type: TypeId,
    found_type: TypeId,
    expected_span: SpanId,
    found_span: SpanId,
    context: Seq<char>,
    source: Seq<char>,
    file: Seq<char>,
) -> Seq<char> {
    "Row type mismatch: expected '"@ + shown_type(pools, expected_type) + "' but found '"@ + shown_type(
        pools,
        found_type,
    ) + "'\n"@ + (if expected_span != found_span {
        emacs_position(pools, expected_span, source, file) + ": Expected row type '"@ + shown_type(
            pools,
            expected_type,
        ) + "' comes from here\n"@
    } else {
        Seq::empty()
    }) + "  Context: "@ + context + "\n"@
}

impl RichTypeError {
    /// What follows the position in the editor-style report.
    pub open spec fn emacs_message(&self, pools: &Pools, source: Seq<char>, file: Seq<char>) -> Seq<char> {
        match self {
            RichTypeError::TypeMismatch(info) => mismatch_report(pools, *info, source, file),
            RichTypeError::UnboundVariable(info) => "Unbound variable '"@ + pools.interner.text_of(info.name)
                + "'\n"@ + suggestions_text(pools, info.suggestions@),
            RichTypeError::OccursCheck(info) => "Infinite type: variable '"@ + var_name_text(pools, info.var)
                + "' occurs in '"@ + shown_type(pools, info.in_type) + "'\n"@,
            RichTypeError::NonExhaustivePatterns(info) => "Non-exhaustive pattern match\n"@
                + "  Missing patterns: "@ + joined(info.missing_patterns@.map_values(|s: String| s@), ", "@)
                + "\n"@ + "  Scrutinee type: "@ + shown_type(pools, info.scrutinee_type) + "\n"@,
            RichTypeError::InfiniteType { var, type_id, .. } => "Infinite type: '"@ + var_name_text(pools, *var)
                + "' = '"@ + shown_type(pools, *type_id) + "'\n"@,
            RichTypeError::CannotInfer { expr, reason, .. } => "Cannot infer type for: "@ + expr_shown(
                pools,
                *expr,
            ) + "\n"@ + "  Reason: "@ + reason@ + "\n"@,
            RichTypeError::ProtectedVariableFailure { protected_var, conflicting_type, var_span, type_span } =>
                protected_report(pools, *protected_var, *conflicting_type, *var_span, *type_span, source, file),
            RichTypeError::ArityMismatch {
                expected_type,
                found_type,
                expected_arity,
                found_arity,
                expected_span,
                found_span,
            } => arity_report(
                pools,
                *expected_type,
                *found_type,
                *expected_arity,
                *found_arity,
                *expected_span,
                *found_span,
                source,
                file,
            ),
            RichTypeError::UniversalVariableEscape { var, context, .. } => "Universal variable '"@
                + var_name_text(pools, *var) + "' escapes its scope\n"@ + "  Context: "@ + context@ + "\n"@
                + "  This violates the constraint α ∉ TV(A)\n"@,
            RichTypeError::UnknownConstructor { name, suggestions, .. } => "Unknown constructor '"@
                + pools.interner.text_of(*name) + "'\n"@ + suggestions_text(pools, suggestions@),
            RichTypeError::FunctionSignatureMismatch {
                function_name,
                original_scheme,
                instantiated_type,
                inferred_type,
                inferred_expr,
                declared_span,
                inferred_span,
            } => signature_report(
                pools,
                *function_name,
                *original_scheme,
                *instantiated_type,
                *inferred_type,
                *inferred_expr,
                *declared_span,
                *inferred_span,
                source,
                file,
            ),
            RichTypeError::RowMismatch { expected_type, found_type, expected_span, found_span, context } =>
                row_report(pools, *expected_type, *found_type, *expected_span, *found_span, context@, source, file),
        }
    }
}

/// Appends the note on where a mismatch arose.
fn push_mismatch_context(out: &mut Vec<char>, pools: &Pools, context: &Option<MismatchContext>)
    requires
        pools.wf(),
    ensures
        final(out)@ == old(out)@ + mismatch_context_text(pools, *context),
{
    let ghost o = out@;
    match context {
        Some(MismatchContext::FunctionApplication { function_expr, arg_index, arg_expr, .. }) => {
            push_str(out, "  In function application: ");
            push_expr(out, pools, *function_expr);
            push_str(out, " argument #");
            if *arg_index < usize::MAX {
                push_usize(out, *arg_index + 1);
            }
            push_str(out, "\n");
            push_str(out, "  Argument expression: ");
            push_expr(out, pools, *arg_expr);
            push_str(out, "\n");
        },
        Some(MismatchContext::FunctionReturn { function_name, .. }) => {
            if let Some(name) = function_name {
                push_str(out, "  In return type of function '");
                let t = pools.name_chars(*name);
                push_chars(out, &t);
                push_str(out, "'\n");
            }
        },
        Some(MismatchContext::VariableBinding { var_name, .. }) => {
            push_str(out, "  In binding of variable '");
            let t = pools.name_chars(*var_name);
            push_chars(out, &t);
            push_str(out, "'\n");
        },
        Some(MismatchContext::PatternMatch { scrutinee_expr, .. }) => {
            push_str(out, "  In pattern match on: ");
            push_expr(out, pools, *scrutinee_expr);
            push_str(out, "\n");
        },
        Some(MismatchContext::RecordField { record_expr, field_name, .. }) => {
            push_str(out, "  In field '");
            let t = pools.name_chars(*field_name);
            push_chars(out, &t);
            push_str(out, "' of record: ");
            push_expr(out, pools, *record_expr);
            push_str(out, "\n");
        },
        None => {},
    }
    assert(out@ =~= o + mismatch_context_text(pools, *context));
}

/// [`mismatch_report`] as characters.
fn mismatch_report_chars(info: &TypeMismatchInfo, pools: &Pools, source: &Vec<char>, file: &Vec<char>) -> (r: Vec<char>)
    requires
        pools.wf(),
        pools.valid_type(info.expected_type),
        pools.valid_type(info.found_type),
    ensures
        r@ == mismatch_report(pools, *info, source@, file@),
{
    let mut rest: Vec<char> = Vec::new();
    push_str(&mut rest, "Type mismatch: expected '");
    let t = pools.display_type_chars(info.expected_type);
    push_chars(&mut rest, &t);
    push_str(&mut rest, "' but found '");
    let t = pools.display_type_chars(info.found_type);
    push_chars(&mut rest, &t);
    push_str(&mut rest, "'\n");
    let mut note: Vec<char> = Vec::new();
    if info.expected_span != info.found_span {
        let p = format_emacs_position(info.expected_span, pools, source, file);
        push_chars(&mut note, &p);
        push_str(&mut note, ": Expected type '");
        let t = pools.display_type_chars(info.expected_type);
        push_chars(&mut note, &t);
        push_str(&mut note, "' comes from here\n");
    }
    push_chars(&mut rest, &note);
    push_mismatch_context(&mut rest, pools, &info.context);
    assert(rest@ =~= mismatch_report(pools, *info, source@, file@));
    rest
}

/// [`protected_report`] as characters.
fn protected_report_chars(
    protected_var: &TypeVarId,
    conflicting_type: TypeId,
    var_span: SpanId,
    type_span: SpanId,
    pools: &Pools,
    source: &Vec<char>,
    file: &Vec<char>,
) -> (r: Vec<char>)
    requires
        pools.wf(),
        pools.valid_type(conflicting_type),
    ensures
        r@ == protected_report(pools, *protected_var, conflicting_type, var_span, type_span, source@, file@),
{
    let mut rest: Vec<char> = Vec::new();
    push_str(&mut rest, "Protected variable '");
    let t = format_type_var_name(protected_var, pools);
    push_chars(&mut rest, &t);
    push_str(&mut rest, "' cannot be unified with '");
    let t = pools.display_type_chars(conflicting_type);
    push_chars(&mut rest, &t);
    push_str(&mut rest, "'\n");
    let mut note: Vec<char> = Vec::new();
    if var_span != type_span {
        let p = format_emacs_position(type_span, pools, source, file);
        push_chars(&mut note, &p);
        push_str(&mut note, ": Conflicting type '");
        let t = pools.display_type_chars(conflicting_type);
        push_chars(&mut note, &t);
        push_str(&mut note, "' comes from here\n");
    }
    push_chars(&mut rest, &note);
    assert(rest@ =~= protected_report(pools, *protected_var, conflicting_type, var_span, type_span, source@, file@));
    rest
}

/// [`arity_report`] as characters.
fn arity_report_chars(
    expected_type: TypeId,
    found_type: TypeId,
    expected_arity: usize,
    found_arity: usize,
    expected_span: SpanId,
    found_span: SpanId,
    pools: &Pools,
    source: &Vec<char>,
    file: &Vec<char>,
) -> (r: Vec<char>)
    requires
        pools.wf(),
        pools.valid_type(expected_type),
        pools.valid_type(found_type),
    ensures
        r@ == arity_report(
            pools,
            expected_type,
            found_type,
            expected_arity,
            found_arity,
            expected_span,
            found_span,
            source@,
            file@,
        ),
{
    let mut rest: Vec<char> = Vec::new();
    push_str(&mut rest, "Arity mismatch: expected ");
    let t = pools.display_type_chars(expected_type);
    push_chars(&mut rest, &t);
    push_str(&mut rest, " with ");
    push_usize(&mut rest, expected_arity);
    push_str(&mut rest, " parameters, found ");
    let t = pools.display_type_chars(found_type);
    push_chars(&mut rest, &t);
    push_str(&mut rest, " with ");
    push_usize(&mut rest, found_arity);
    push_str(&mut rest, " parameters\n");
    let mut note: Vec<char> = Vec::new();
    if expected_span != found_span {
        let p = format_emacs_position(expected_span, pools, source, file);
        push_chars(&mut note, &p);
        push_str(&mut note, ": Expected type '");
        let t = pools.display_type_chars(expected_type);
        push_chars(&mut note, &t);
        push_str(&mut note, "' comes from here\n");
    }
    push_chars(&mut rest, &note);
    assert(rest@ =~= arity_report(
        pools,
        expected_type,
        found_type,
        expected_arity,
        found_arity,
        expected_span,
        found_span,
        source@,
        file@,
    ));
    rest
}

/// [`signature_report`] as characters.
fn signature_report_chars(
    function_name: InternedString,
    original_scheme: &TypeScheme,
    instantiated_type: TypeId,
    inferred_type: TypeId,
    inferred_expr: ExprId,
    declared_span: SpanId,
    inferred_span: SpanId,
    pools: &Pools,
    source: &Vec<char>,
    file: &Vec<char>,
) -> (r: Vec<char>)
    requires
        pools.wf(),
        pools.valid_type(original_scheme.ty),
        pools.valid_type(instantiated_type),
        pools.valid_type(inferred_type),
    ensures
        r@ == signature_report(
            pools,
            function_name,
            *original_scheme,
            instantiated_type,
            inferred_type,
            inferred_expr,
            declared_span,
            inferred_span,
            source@,
            file@,
        ),
{
    let mut rest: Vec<char> = Vec::new();
    push_str(&mut rest, "Function '");
    let t = pools.name_chars(function_name);
    push_chars(&mut rest, &t);
    push_str(&mut rest, "' body type mismatch: expected '");
    let t = pools.display_type_chars(instantiated_type);
    push_chars(&mut rest, &t);
    push_str(&mut rest, "' but inferred '");
    let t = pools.display_type_chars(inferred_type);
    push_chars(&mut rest, &t);
    push_str(&mut rest, "'\n");
    let mut note: Vec<char> = Vec::new();
    if declared_span != inferred_span {
        let p = format_emacs_position(declared_span, pools, source, file);
        push_chars(&mut note, &p);
        push_str(&mut note, ": Function '");
        let t = pools.name_chars(function_name);
        push_chars(&mut note, &t);
        push_str(&mut note, "' declared here with scheme '");
        let t = original_scheme.display_chars(pools);
        push_chars(&mut note, &t);
        push_str(&mut note, "'\n");
    }
    push_chars(&mut rest, &note);
    let mut tail: Vec<char> = Vec::new();
    push_str(&mut tail, "  Function body expression: ");
    push_expr(&mut tail, pools, inferred_expr);
    push_str(&mut tail, "\n");
    push_str(&mut tail, "  Original scheme: ");
    let t = original_scheme.display_chars(pools);
    push_chars(&mut tail, &t);
    push_str(&mut tail, "\n");
    push_str(&mut tail, "  Instantiated as: ");
    let t = pools.display_type_chars(instantiated_type);
    push_chars(&mut tail, &t);
    push_str(&mut tail, "\n");
    push_str(&mut tail, "  But body inferred: ");
    let t = pools.display_type_chars(inferred_type);
    push_chars(&mut tail, &t);
    push_str(&mut tail, "\n");
    push_chars(&mut rest, &tail);
    assert(rest@ =~= signature_report(
        pools,
        function_name,
        *original_scheme,
        instantiated_type,
        inferred_type,
        inferred_expr,
        declared_span,
        inferred_span,
        source@,
        file@,
    ));
    rest
}

/// [`row_report`] as characters.
fn row_report_chars(
    expected_type: TypeId,
    found_type: TypeId,
    expected_span: SpanId,
    found_span: SpanId,
    context: &String,
    pools: &Pools,
    source: &Vec<char>,
    file: &Vec<char>,
) -> (r: Vec<char>)
    requires
        pools.wf(),
        pools.valid_type(expected_type),
        pools.valid_type(found_type),
    ensures
        r@ == row_report(pools, expected_type, found_type, expected_span, found_span, context@, source@, file@),
{
    let mut rest: Vec<char> = Vec::new();
    push_str(&mut rest, "Row type mismatch: expected '");
    let t = pools.display_type_chars(expected_type);
    push_chars(&mut rest, &t);
    push_str(&mut rest, "' but found '");
    let t = pools.display_type_chars(found_type);
    push_chars(&mut rest, &t);
    push_str(&mut rest, "'\n");
    let mut note: Vec<char> = Vec::new();
    if expected_span != found_span {
        let p = format_emacs_position(expected_span, pools, source, file);
        push_chars(&mut note, &p);
        push_str(&mut note, ": Expected row type '");
        let t = pools.display_type_chars(expected_type);
        push_chars(&mut note, &t);
        push_str(&mut note, "' comes from here\n");
    }
    push_chars(&mut rest, &note);
    push_str(&mut rest, "  Context: ");
    let t = str_to_chars(context.as_str());
    push_chars(&mut rest, &t);
    push_str(&mut rest, "\n");
    assert(rest@ =~= row_report(pools, expected_type, found_type, expected_span, found_span, context@, source@, file@));
    rest
}

impl RichTypeError {
    /// The error as `file:line:col: message` lines that an editor can follow,
    /// with a line for each other place involved and notes on the context.
    pub fn display_emacs_format(
        &self,
        pools: &Pools,
        typing_ctx: &PooledTypingContext,
        source_code: &str,
        filename: &str,
    ) -> (r: String)
        requires
            pools.wf(),
            self.types_valid(pools),
        ensures
            r@ == emacs_position(pools, self.spec_primary_span(), source_code@, filename@) + ": "@
                + self.emacs_message(pools, source_code@, filename@),
    {
        let source = str_to_chars(source_code);
        let file = str_to_chars(filename);
        let pos = format_emacs_position(self.primary_span(), pools, &source, &file);
        let mut result: Vec<char> = Vec::new();
        push_chars(&mut result, &pos);
        push_str(&mut result, ": ");
        let mut rest: Vec<char> = Vec::new();
        match self {
            RichTypeError::TypeMismatch(info) => {
                rest = mismatch_report_chars(info, pools, &source, &file);
            },
            RichTypeError::UnboundVariable(info) => {
                push_str(&mut rest, "Unbound variable '");
                let t = pools.name_chars(info.name);
                push_chars(&mut rest, &t);
                push_str(&mut rest, "'\n");
                if info.suggestions.len() > 0 {
                    push_str(&mut rest, "  Did you mean one of: ");
                    push_quoted_names(&mut rest, &info.suggestions, pools);
                    rest.push('\n');
                }
                assert(rest@ =~= self.emacs_message(pools, source@, file@));
            },
            RichTypeError::OccursCheck(info) => {
                push_str(&mut rest, "Infinite type: variable '");
                let t = format_type_var_name(&info.var, pools);
                push_chars(&mut rest, &t);
                push_str(&mut rest, "' occurs in '");
                let t = pools.display_type_chars(info.in_type);
                push_chars(&mut rest, &t);
                push_str(&mut rest, "'\n");
                assert(rest@ =~= self.emacs_message(pools, source@, file@));
            },
            RichTypeError::NonExhaustivePatterns(info) => {
                push_str(&mut rest, "Non-exhaustive pattern match\n");
                push_str(&mut rest, "  Missing patterns: ");
                push_joined(&mut rest, &info.missing_patterns, ", ");
                push_str(&mut rest, "\n");
                push_str(&mut rest, "  Scrutinee type: ");
                let t = pools.display_type_chars(info.scrutinee_type);
                push_chars(&mut rest, &t);
                push_str(&mut rest, "\n");
                assert(rest@ =~= self.emacs_message(pools, source@, file@));
            },
            RichTypeError::InfiniteType { var, type_id, .. } => {
                push_str(&mut rest, "Infinite type: '");
                let t = format_type_var_name(var, pools);
                push_chars(&mut rest, &t);
                push_str(&mut rest, "' = '");
                let t = pools.display_type_chars(*type_id);
                push_chars(&mut rest, &t);
                push_str(&mut rest, "'\n");
                assert(rest@ =~= self.emacs_message(pools, source@, file@));
            },
            RichTypeError::CannotInfer { expr, reason, .. } => {
                push_str(&mut rest, "Cannot infer type for: ");
                push_expr(&mut rest, pools, *expr);
                push_str(&mut rest, "\n");
                push_str(&mut rest, "  Reason: ");
                let t = str_to_chars(reason.as_str());
                push_chars(&mut rest, &t);
                push_str(&mut rest, "\n");
                assert(rest@ =~= self.emacs_message(pools, source@, file@));
            },
            RichTypeError::ProtectedVariableFailure { protected_var, conflicting_type, var_span, type_span } => {
                rest = protected_report_chars(protected_var, *conflicting_type, *var_span, *type_span, pools, &source, &file);
            },
            RichTypeError::ArityMismatch {
                expected_type,
                found_type,
                expected_arity,
                found_arity,
                expected_span,
                found_span,
            } => {
                rest = arity_report_chars(
                    *expected_type,
                    *found_type,
                    *expected_arity,
                    *found_arity,
                    *expected_span,
                    *found_span,
                    pools,
                    &source,
                    &file,
                );
            },
            RichTypeError::UniversalVariableEscape { var, context, .. } => {
                push_str(&mut rest, "Universal variable '");
                let t = format_type_var_name(var, pools);
                push_chars(&mut rest, &t);
                push_str(&mut rest, "' escapes its scope\n");
                push_str(&mut rest, "  Context: ");
                let t = str_to_chars(context.as_str());
                push_chars(&mut rest, &t);
                push_str(&mut rest, "\n");
                push_str(&mut rest, "  This violates the constraint α ∉ TV(A)\n");
                assert(rest@ =~= self.emacs_message(pools, source@, file@));
            },
            RichTypeError::UnknownConstructor { name, suggestions, .. } => {
                push_str(&mut rest, "Unknown constructor '");
                let t = pools.name_chars(*name);
                push_chars(&mut rest, &t);
                push_str(&mut rest, "'\n");
                if suggestions.len() > 0 {
                    push_str(&mut rest, "  Did you mean one of: ");
                    push_quoted_names(&mut rest, suggestions, pools);
                    rest.push('\n');
                }
                assert(rest@ =~= self.emacs_message(pools, source@, file@));
            },
            RichTypeError::FunctionSignatureMismatch {
                function_name,
                original_scheme,
                instantiated_type,
                inferred_type,
                inferred_expr,
                declared_span,
                inferred_span,
            } => {
                rest = signature_report_chars(
                    *function_name,
                    original_scheme,
                    *instantiated_type,
                    *inferred_type,
                    *inferred_expr,
                    *declared_span,
                    *inferred_span,
                    pools,
                    &source,
                    &file,
                );
            },
            RichTypeError::RowMismatch { expected_type, found_type, expected_span, found_span, context } => {
                rest = row_report_chars(*expected_type, *found_type, *expected_span, *found_span, context, pools, &source, &file);
            },
        }
        assert(rest@ =~= self.emacs_message(pools, source@, file@));
        push_chars(&mut result, &rest);
        chars_to_string(&result)
    }

    /// The editor-style report, followed by the source lines around the error
    /// and a listing of the inference state.
    pub fn display_comprehensive(
        &self,
        pools: &Pools,
        typing_ctx: &PooledTypingContext,
        source_code: &str,
        filename: &str,
    ) -> (r: String)
        requires
            pools.wf(),
            self.types_valid(pools),
            typing_ctx.wf_in(pools),
        ensures
            r@ == emacs_position(pools, self.spec_primary_span(), source_code@, filename@) + ": "@
                + self.emacs_message(pools, source_code@, filename@) + "\n"@ + miette_context(
                pools,
                self.spec_primary_span(),
                source_code@,
            ) + "\n"@ + typing_context_text(typing_ctx, pools, source_code@, filename@),
    {
        let first = self.display_emacs_format(pools, typing_ctx, source_code, filename);
        let mut result = str_to_chars(first.as_str());
        let source = str_to_chars(source_code);
        let file = str_to_chars(filename);
        push_str(&mut result, "\n");
        let m = format_miette_context(self.primary_span(), pools, &source);
        push_chars(&mut result, &m);
        push_str(&mut result, "\n");
        let c = format_typing_context(typing_ctx, pools, &source, &file);
        push_chars(&mut result, &c);
        chars_to_string(&result)
    }
}

} // verus!
