//! The interpreter: parses a program into its pools, checks the declared
//! function signatures, binds every top-level function, then infers the type of
//! the program's first expression and evaluates it.
use vstd::prelude::*;

use crate::error::RichTypeError;
use crate::eval::hoas::{
    evaluate_pooled, eval_spec, fields_from, fields_from_vec, globals_ok, lemma_fields_from_ok,
    lemma_globals_put_ok, lemma_list_from_ok, lemma_value_ok_grow, list_from, list_from_vec, value_ok, value_text,
    values_ok, eval_error_text, EvalError, FieldList, FunctionKind, HOASFunction, PooledEnv, PooledValue, ValueList, EVAL_DEPTH,
};
use crate::parser::{all_resolved, blank_text, number_of, number_text, LambdaParser};
use crate::expr::Expr;
use crate::pools::{assoc_get, assoc_put, lemma_assoc_put_get, ExprId, Pools, TypeId};
use crate::types::{has_var, scheme_text, var_occurs, Type, TypeScheme};
use crate::text::{chars_to_string, push_chars, push_str, str_to_chars};
use crate::type_inference::{generalized, PooledTypingContext};
use crate::InternedString;

verus! {

/// The value a top-level function `name` is bound to: applying it evaluates
/// `impl_id` where the globals are `globals` with `name` bound to the function
/// itself, then applies the result.
pub open spec fn recursive_value(
    name: InternedString,
    param: InternedString,
    impl_id: ExprId,
    values: Seq<PooledValue>,
    globals: Seq<(InternedString, PooledValue)>,
) -> PooledValue {
    PooledValue::Function(
        Box::new(
            HOASFunction {
                kind: FunctionKind::Recursive(name, list_from(values, 0), fields_from(globals, 0)),
                param,
                body_id: impl_id,
                captured_env: ValueList::Nil,
                captured_globals: FieldList::Nil,
            },
        ),
    )
}

/// Whether the name is bound to a top-level function value.
pub open spec fn bound_to_function(globals: Seq<(InternedString, PooledValue)>, name: InternedString) -> bool {
    assoc_get(globals, name) matches Some(PooledValue::Function(f)) && f.kind is Recursive
}

/// Values in the same environment of a larger pool stay valid.
pub proof fn lemma_env_ok_grow(env: &PooledEnv, a: nat, b: nat)
    requires
        a <= b,
        env.ok(a),
    ensures
        env.ok(b),
{
    assert forall|i: int| 0 <= i < env.values_view().len() implies #[trigger] value_ok(b, env.values_view()[i]) by {
        lemma_value_ok_grow(a, b, env.values_view()[i]);
    }
    assert forall|i: int| 0 <= i < env.globals@.len() implies #[trigger] value_ok(b, env.globals@[i].1) by {
        lemma_value_ok_grow(a, b, env.globals@[i].1);
    }
}

/// Pools, typing context and runtime environment of an interpreter session.
pub struct Interpreter {
    pub pools: Pools,
    pub typing_ctx: PooledTypingContext,
    pub env: PooledEnv,
}

impl Interpreter {
    pub open spec fn wf(&self) -> bool {
        &&& self.pools.wf()
        &&& self.typing_ctx.wf_in(&self.pools)
        &&& self.env.ok(self.pools.exprs@.len())
    }

    /// A session whose environment holds the builtin `add`.
    pub fn new() -> (r: Self)
        ensures
            r.wf(),
            r.env.values_view().len() == 0,
            r.typing_ctx.type_schemes@.len() == 0,
            r.typing_ctx.substitutions@.len() == 0,
            r.typing_ctx.expr_types@.len() == 0,
            r.pools.exprs@.len() == 0,
            r.pools.globals@.len() == 0,
            r.pools.global_order@.len() == 0,
            r.pools.function_implementations@.len() == 0,
            crate::pools::has_builtin_lists(&r.pools),
            r.env.globals@.len() == 1,
            r.pools.interner.text_of(r.env.globals@[0].0) == "add"@,
            r.env.globals@[0].1 matches crate::eval::hoas::PooledValue::Function(f) && f.kind is AddIntrinsic
                && r.pools.interner.text_of(f.param) == "x"@,
    {
        let mut pools = Pools::new();
        let ghost p0 = pools;
        let env = PooledEnv::with_intrinsics(&mut pools);
        proof {
            let (list, nil, cons) = choose|list: InternedString, nil: InternedString, cons: InternedString|
                #[trigger] crate::pools::builtin_lists_named(&p0, list, nil, cons);
            reveal_strlit("BuiltinList");
            reveal_strlit("Nil");
            reveal_strlit("Cons");
            assert(p0.interner.text_of(list).len() > 0);
            assert(p0.interner.text_of(nil).len() > 0);
            assert(p0.interner.text_of(cons).len() > 0);
            assert(pools.interner.strings@[list.0 as int] == p0.interner.strings@[list.0 as int]);
            assert(pools.interner.strings@[nil.0 as int] == p0.interner.strings@[nil.0 as int]);
            assert(pools.interner.strings@[cons.0 as int] == p0.interner.strings@[cons.0 as int]);
            assert(crate::pools::builtin_lists_named(&pools, list, nil, cons));
        }
        let typing_ctx = PooledTypingContext::new();
        Interpreter { pools, typing_ctx, env }
    }

    /// Binds top-level function `name`, implemented by `impl_id`, to a value
    /// that refers to itself through the globals it is applied with.
    fn evaluate_recursive_function(&mut self, impl_id: ExprId, name: InternedString) -> (r: PooledValue)
        requires
            old(self).wf(),
            old(self).pools.valid_expr(impl_id),
        ensures
            final(self).wf(),
            old(self).pools.grows_to(&final(self).pools),
            final(self).pools.exprs == old(self).pools.exprs,
            final(self).pools.function_implementations == old(self).pools.function_implementations,
            final(self).typing_ctx == old(self).typing_ctx,
            exists|param: InternedString|
                r == recursive_value(
                    name,
                    param,
                    impl_id,
                    old(self).env.values_view(),
                    old(self).env.globals@,
                ),
            final(self).env.globals@ == assoc_put(old(self).env.globals@, name, r),
            final(self).env.values_view() == old(self).env.values_view(),
    {
        let ghost n = self.pools.exprs@.len();
        let ghost before = self.pools;
        let param = match self.pools.intern_name("arg") {
            Some(p) => p,
            None => name,
        };
        proof {
            self.typing_ctx.lemma_wf_grow(&before, &self.pools);
        }
        let values = list_from_vec(&self.env.values, 0);
        let globals = fields_from_vec(&self.env.globals, 0);
        proof {
            lemma_list_from_ok(n, self.env.values@, 0);
            lemma_fields_from_ok(n, self.env.globals@, 0);
        }
        let recursive_func = PooledValue::Function(
            Box::new(
                HOASFunction {
                    kind: FunctionKind::Recursive(name, values, globals),
                    param,
                    body_id: impl_id,
                    captured_env: ValueList::Nil,
                    captured_globals: FieldList::Nil,
                },
            ),
        );
        proof {
            assert(crate::eval::hoas::list_ok(n, ValueList::Nil));
            assert(crate::eval::hoas::fields_ok(n, FieldList::Nil));
            assert(value_ok(n, recursive_func));
            lemma_globals_put_ok(n, self.env.globals@, name, recursive_func);
        }
        self.env.insert_global(name, recursive_func.copy());
        assert(recursive_func == recursive_value(name, param, impl_id, old(self).env.values_view(), old(self).env.globals@));
        recursive_func
    }

    /// Checks and binds every top-level function of the pools.
    fn bind_functions(&mut self) -> (r: Result<(), String>)
        requires
            old(self).wf(),
        ensures
            final(self).wf(),
            final(self).pools.exprs == old(self).pools.exprs,
            final(self).pools.function_implementations == old(self).pools.function_implementations,
            r is Ok ==> forall|k: int|
                0 <= k < final(self).pools.function_implementations@.len() ==> bound_to_function(
                    final(self).env.globals@,
                    (#[trigger] final(self).pools.function_implementations@[k]).0,
                ),
            (forall|k: int| 0 <= k < old(self).pools.function_implementations@.len() ==> crate::pools::assoc_index(
                old(self).pools.globals@, #[trigger] old(self).pools.function_implementations@[k].0) == -1) ==> r is Ok,
            r matches Err(m) ==> m@.len() >= 28 && m@.subrange(0, 28) == "Function signature errors: ["@,
    {
        let ghost p0 = self.pools;
        match self.typing_ctx.verify_function_signatures(&mut self.pools) {
            Ok(()) => {},
            Err(errors) => {
                let mut msg = str_to_chars("Function signature errors: [");
                proof {
                    reveal_strlit("Function signature errors: [");
                }
                let ghost head = msg@;
                let mut i: usize = 0;
                while i < errors.len()
                    invariant
                        i <= errors@.len(),
                        head == "Function signature errors: ["@,
                        head.len() == 28,
                        msg@.len() >= 28,
                        msg@.subrange(0, 28) == head,
                        self.pools.wf(),
                        forall|k: int| 0 <= k < errors@.len() ==> (#[trigger] errors@[k]).types_valid(&self.pools),
                    decreases errors.len() - i,
                {
                    if i > 0 {
                        push_str(&mut msg, ", ");
                    }
                    let t = str_to_chars(errors[i].display_with_location(&self.pools).as_str());
                    let ghost m0 = msg@;
                    push_chars(&mut msg, &t);
                    assert(msg@.subrange(0, 28) =~= m0.subrange(0, 28));
                    i = i + 1;
                }
                let ghost m1 = msg@;
                push_str(&mut msg, "]");
                assert(msg@.subrange(0, 28) =~= m1.subrange(0, 28));
                proof {
                    lemma_env_ok_grow(&self.env, p0.exprs@.len(), self.pools.exprs@.len());
                }
                return Err(chars_to_string(&msg));
            },
        }
        proof {
            lemma_env_ok_grow(&self.env, p0.exprs@.len(), self.pools.exprs@.len());
        }
        let ghost p1 = self.pools;
        let mut i: usize = 0;
        while i < self.pools.function_implementations.len()
            invariant
                i <= self.pools.function_implementations@.len(),
                self.wf(),
                self.pools.exprs == p1.exprs,
                self.pools.function_implementations == p1.function_implementations,
                forall|k: int|
                    0 <= k < i ==> bound_to_function(
                        self.env.globals@,
                        (#[trigger] self.pools.function_implementations@[k]).0,
                    ),
            decreases self.pools.function_implementations@.len() - i,
        {
            let (name, impl_id) = self.pools.function_implementations[i];
            assert(self.pools.tables_wf());
            assert(self.pools.function_implementations@[i as int].1.0 < self.pools.exprs@.len());
            let ghost g0 = self.env.globals@;
            let func_value = self.evaluate_recursive_function(impl_id, name);
            proof {
                assert forall|k: int| 0 <= k <= i implies bound_to_function(
                    self.env.globals@,
                    (#[trigger] self.pools.function_implementations@[k]).0,
                ) by {
                    let other = self.pools.function_implementations@[k].0;
                    lemma_assoc_put_get(g0, name, func_value, other);
                }
            }
            i = i + 1;
        }
        Ok(())
    }

    /// The report on expression `expr_id`: its generalized type and its value.
    fn report(&mut self, expr_id: ExprId) -> (r: Result<String, String>)
        requires
            old(self).wf(),
            old(self).pools.valid_expr(expr_id),
        ensures
            final(self).wf(),
            final(self).pools.exprs == old(self).pools.exprs,
            final(self).pools.function_implementations == old(self).pools.function_implementations,
            final(self).env == old(self).env,
            r matches Ok(s) ==> reported(&final(self).typing_ctx, final(self).pools, &final(self).env, expr_id, s@),
            r matches Err(s) ==> report_failed(final(self).pools, &final(self).env, expr_id, s@),
            eval_spec(final(self).pools, expr_id, final(self).env.values_view(), final(self).env.globals@, EVAL_DEPTH as nat) is Err
                ==> r is Err,
            old(self).pools.exprs@[expr_id.0 as int] matches Expr::Int(v, _) ==> (r matches Ok(s)
                && s@ == "Type: Int, Value: "@ + crate::text::int_text(v as int)),
    {
        let ghost p0 = self.pools;
        match self.typing_ctx.infer_type(&mut self.pools, expr_id) {
            Ok(ty) => {
                let scheme = self.typing_ctx.generalize_type(&self.pools, ty);
                proof {
                    if p0.exprs@[expr_id.0 as int] is Int {
                        assert(self.pools.types@[ty.0 as int] is Int);
                        if scheme.quantified@.len() > 0 {
                            assert(has_var(scheme.quantified@, scheme.quantified@[0].0));
                            assert(!var_occurs(&self.pools, ty.0 as int, scheme.quantified@[0].0));
                        }
                        reveal_strlit("Int");
                        assert(scheme_text(&self.pools, scheme) == "Int"@);
                    }
                }
                let type_display = scheme.display_chars(&self.pools);
                proof {
                    lemma_env_ok_grow(&self.env, p0.exprs@.len(), self.pools.exprs@.len());
                }
                match evaluate_pooled(expr_id, &self.pools, &self.env) {
                    Ok(result) => {
                        let mut out = str_to_chars("Type: ");
                        push_chars(&mut out, &type_display);
                        push_str(&mut out, ", Value: ");
                        let ghost head = out@;
                        result.fmt_value(&self.pools, &mut out);
                        proof {
                            assert(head == "Type: "@ + scheme_text(&self.pools, scheme) + ", Value: "@);
                            assert(generalized(&self.typing_ctx, &self.pools, scheme));
                            if p0.exprs@[expr_id.0 as int] is Int {
                                reveal_strlit("Type: ");
                                reveal_strlit(", Value: ");
                                reveal_strlit("Type: Int, Value: ");
                                assert(head =~= "Type: Int, Value: "@);
                            }
                        }
                        Ok(chars_to_string(&out))
                    },
                    Err(e) => {
                        let msg = e.message(&self.pools);
                        proof {
                            assert(msg@ == eval_error_text(self.pools, e));
                        }
                        Err(msg)
                    },
                }
            },
            Err(err) => {
                proof {
                    lemma_env_ok_grow(&self.env, p0.exprs@.len(), self.pools.exprs@.len());
                }
                let msg = err.display_with_location(&self.pools);
                proof {
                    assert(msg@ == err.location_message(&self.pools));
                }
                Err(msg)
            },
        }
    }

    /// Interprets a program: reports the type and value of its first
    /// expression, after binding the functions it declares.
    pub fn interpret(&mut self, input: &str) -> (r: Result<String, String>)
        requires
            old(self).wf(),
        ensures
            final(self).wf(),
            r is Ok ==> forall|k: int|
                0 <= k < final(self).pools.function_implementations@.len() ==> bound_to_function(
                    final(self).env.globals@,
                    (#[trigger] final(self).pools.function_implementations@[k]).0,
                ),
            r matches Ok(s) ==> s@ == "No expression to evaluate"@ || exists|e: ExprId|
                final(self).pools.valid_expr(e) && #[trigger] reported(&final(self).typing_ctx, final(self).pools, &final(self).env, e, s@),
            fresh_program(&old(self).pools) && blank_text(input@) && input@.len() + 1 < usize::MAX
                ==> (r matches Ok(s) && s@ == "No expression to evaluate"@),
            fresh_program(&old(self).pools) && number_text(input@)
                ==> (r matches Ok(s) && s@ == "Type: Int, Value: "@ + crate::text::int_text(number_of(input@).unwrap())),
    {
        let ghost p0 = self.pools;
        let parsed = LambdaParser::parse_program_to_pool(input, &mut self.pools);
        proof {
            lemma_env_ok_grow(&self.env, p0.exprs@.len(), self.pools.exprs@.len());
            assert(self.typing_ctx.wf_in(&self.pools));
        }
        let expr_ids = match parsed {
            Ok(ids) => ids,
            Err(e) => return Err(e),
        };
        match self.bind_functions() {
            Ok(()) => {},
            Err(e) => return Err(e),
        }
        if expr_ids.len() == 0 {
            proof {
                reveal_strlit("No expression to evaluate");
            }
            return Ok(chars_to_string(&str_to_chars("No expression to evaluate")));
        }
        let expr_id = expr_ids[0];
        proof {
            if fresh_program(&old(self).pools) && number_text(input@) {
                assert(self.pools.exprs@[expr_id.0 as int] is Int);
            }
        }
        let r = self.report(expr_id);
        proof {
            assert(self.pools.valid_expr(expr_id));
        }
        r
    }
}


/// No function is implemented yet and every variable of the pools is resolved.
pub open spec fn fresh_program(p: &Pools) -> bool {
    &&& p.function_implementations@.len() == 0
    &&& all_resolved(p)
}

/// The report on evaluating `e`: its generalized type and its value.
pub open spec fn reported(ctx: &PooledTypingContext, pools: Pools, env: &PooledEnv, e: ExprId, s: Seq<char>) -> bool {
    exists|sc: TypeScheme, v: PooledValue|
        #![trigger generalized(ctx, &pools, sc), value_text(pools, v)]
        generalized(ctx, &pools, sc) && eval_spec(pools, e, env.values_view(), env.globals@, EVAL_DEPTH as nat)
            == Ok::<PooledValue, EvalError>(v) && s == "Type: "@ + scheme_text(&pools, sc) + ", Value: "@ + value_text(pools, v)
}

/// A failed report: the evaluation error, or a type error, in words.
pub open spec fn report_failed(pools: Pools, env: &PooledEnv, e: ExprId, s: Seq<char>) -> bool {
    ||| exists|ee: EvalError|
        eval_spec(pools, e, env.values_view(), env.globals@, EVAL_DEPTH as nat) == Err::<PooledValue, EvalError>(ee)
            && s == #[trigger] eval_error_text(pools, ee)
    ||| exists|te: RichTypeError| s == #[trigger] te.location_message(&pools)
}

/// Type `t` is `Int → Int → Int`.
pub open spec fn int_binary(p: &Pools, t: TypeId) -> bool {
    0 <= t.0 < p.types@.len() && match p.types@[t.0 as int] {
        Type::Arrow(a, b, _) => a.0 < p.types@.len() && p.types@[a.0 as int] is Int && b.0 < p.types@.len() && match p.types@[b.0 as int] {
            Type::Arrow(c, d, _) => c.0 < p.types@.len() && p.types@[c.0 as int] is Int && d.0 < p.types@.len()
                && p.types@[d.0 as int] is Int,
            _ => false,
        },
        _ => false,
    }
}

/// The scheme is `Int → Int → Int`, with nothing quantified.
pub open spec fn int_binary_scheme(p: &Pools, sc: Option<TypeScheme>) -> bool {
    match sc {
        Some(s) => s.quantified@.len() == 0 && int_binary(p, s.ty),
        None => false,
    }
}

/// The global named `name` has the scheme `Int → Int → Int`, with nothing quantified.
pub open spec fn binds_int_binary(p: &Pools, name: Seq<char>) -> bool {
    exists|k: int|
        0 <= k < p.globals@.len() && p.interner.text_of(#[trigger] p.globals@[k].0) == name
            && int_binary_scheme(p, assoc_get(p.globals@, p.globals@[k].0))
}

/// Binds `name` to the scheme `Int → Int → Int` of type `t`.
fn bind_int_binary(pools: &mut Pools, name: &str, t: TypeId)
    requires
        old(pools).wf(),
        int_binary(old(pools), t),
        old(pools).interner.strings@.len() < 0xFFFF_FFFE,
    ensures
        final(pools).wf(),
        final(pools).types == old(pools).types,
        final(pools).interner.strings@.len() <= old(pools).interner.strings@.len() + 1,
        binds_int_binary(final(pools), name@),
        forall|other: Seq<char>|
            other != name@ && other.len() > 0 && binds_int_binary(old(pools), other) ==> binds_int_binary(
                final(pools),
                other,
            ),
{
    let ghost p0 = *pools;
    let n = match pools.intern_name(name) {
        Some(n) => n,
        None => return ,
    };
    let ghost p1 = *pools;
    assert forall|other: Seq<char>| other != name@ && other.len() > 0 && binds_int_binary(&p0, other) implies binds_int_binary(&p1, other) by {
        let k = choose|k: int|
            0 <= k < p0.globals@.len() && p0.interner.text_of(#[trigger] p0.globals@[k].0) == other
                && int_binary_scheme(&p0, assoc_get(p0.globals@, p0.globals@[k].0));
        assert(p1.globals@[k] == p0.globals@[k]);
        let id = p0.globals@[k].0;
        assert((id.0 as int) < p0.interner.strings@.len());
        assert(p1.interner.strings@[id.0 as int] == p0.interner.strings@[id.0 as int]);
        assert(p1.interner.text_of(p1.globals@[k].0) == other);
    }
    let scheme = TypeScheme::new(Vec::new(), t);
    assert(int_binary(pools, t));
    pools.bind_global_scheme(n, scheme);
    proof {
        let g0 = p1.globals@;
        let g1 = pools.globals@;
        lemma_assoc_put_get(g0, n, scheme, n);
        crate::pools::lemma_assoc_index(g1, n);
        let k = crate::pools::assoc_index(g1, n);
        assert(pools.interner.text_of(g1[k].0) == name@);
        assert forall|other: Seq<char>| other != name@ && other.len() > 0 && binds_int_binary(&p1, other) implies binds_int_binary(pools, other) by {
            let j = choose|j: int|
                0 <= j < g0.len() && p1.interner.text_of(#[trigger] g0[j].0) == other
                    && int_binary_scheme(&p1, assoc_get(g0, g0[j].0));
            let m = g0[j].0;
            assert(m != n);
            lemma_assoc_put_get(g0, n, scheme, m);
            crate::pools::lemma_assoc_index(g1, m);
            let j2 = crate::pools::assoc_index(g1, m);
            assert(0 <= j2 < g1.len() && g1[j2].0 == m);
        }
    }
}

/// Binds the schemes of the builtin arithmetic functions `add`, `sub`, `mul`
/// and `div`, each `Int → Int → Int`.
pub fn setup_arithmetic_intrinsics(pools: &mut Pools)
    requires
        old(pools).wf(),
    ensures
        final(pools).wf(),
        old(pools).interner.strings@.len() + 4 < 0xFFFF_FFFE ==> {
            &&& binds_int_binary(final(pools), "add"@)
            &&& binds_int_binary(final(pools), "sub"@)
            &&& binds_int_binary(final(pools), "mul"@)
            &&& binds_int_binary(final(pools), "div"@)
        },
{
    let ghost len0 = pools.interner.strings@.len();
    let int_type = pools.type_int();
    let arrow1 = pools.type_arrow(int_type, int_type);
    let int_to_int_to_int = pools.type_arrow(int_type, arrow1);
    assert(int_binary(pools, int_to_int_to_int));
    if pools.interner.strings.len() >= 0xFFFF_FFFE - 4 {
        return ;
    }
    proof {
        reveal_strlit("add");
        reveal_strlit("sub");
        reveal_strlit("mul");
        reveal_strlit("div");
    }
    bind_int_binary(pools, "add", int_to_int_to_int);
    bind_int_binary(pools, "sub", int_to_int_to_int);
    bind_int_binary(pools, "mul", int_to_int_to_int);
    bind_int_binary(pools, "div", int_to_int_to_int);
}

} // verus!
