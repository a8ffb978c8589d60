use wand::pools::{Pools, SpanId, TypeVarId};
use wand::type_inference::PooledTypingContext;
use wand::types::Type;

#[test]
fn test_unification_mod_vars_basic() {
    let mut pools = Pools::new();
    let mut ctx = PooledTypingContext::new();

    let alpha = pools.type_var(0);
    let _beta = pools.type_var(1);
    let int_type = pools.type_int();

    let protected: Vec<TypeVarId> = Vec::new();
    let dummy_span = pools.dummy_span();
    let result = ctx.unify(&mut pools, alpha, int_type, &protected, dummy_span, dummy_span);
    assert!(result.is_ok());

    assert!(ctx.substitutions.iter().any(|(v, _)| *v == TypeVarId::new(0).0));
    let final_type = ctx.apply_substitutions(&mut pools, alpha);
    assert_eq!(pools.get_type(final_type), Type::Int(SpanId(0)));
}

#[test]
fn test_unification_mod_vars_protected() {
    let mut pools = Pools::new();
    let mut ctx = PooledTypingContext::new();

    let alpha = pools.type_var(0);
    let int_type = pools.type_int();

    let protected = vec![TypeVarId::new(0)];
    let dummy_span = pools.dummy_span();
    let result = ctx.unify(&mut pools, alpha, int_type, &protected, dummy_span, dummy_span);
    assert!(result.is_ok());
}

#[test]
fn test_unification_mod_vars_contains_protected() {
    let mut pools = Pools::new();
    let mut ctx = PooledTypingContext::new();

    let alpha = pools.type_var(0);
    let beta = pools.type_var(1);

    let arrow_type = pools.type_arrow(beta, alpha);

    let gamma = pools.type_var(2);
    let protected = vec![TypeVarId::new(0)];

    let dummy_span = pools.dummy_span();
    let result = ctx.unify(&mut pools, gamma, arrow_type, &protected, dummy_span, dummy_span);
    assert!(result.is_ok());
    assert!(ctx.substitutions.iter().any(|(v, _)| *v == TypeVarId::new(2).0));
}

#[test]
fn unify_distinct_base_types_fails() {
    let mut pools = Pools::new();
    let mut ctx = PooledTypingContext::new();
    let int_type = pools.type_int();
    let unit_type = pools.type_unit();
    let dummy_span = pools.dummy_span();
    let result = ctx.unify(&mut pools, int_type, unit_type, &Vec::new(), dummy_span, dummy_span);
    assert!(result.is_err());
}

#[test]
fn unify_arrows_with_clashing_results_fails() {
    let mut pools = Pools::new();
    let mut ctx = PooledTypingContext::new();
    let int_a = pools.type_int();
    let int_b = pools.type_int();
    let int_c = pools.type_int();
    let string_type = pools.type_string();
    let left = pools.type_arrow(int_a, int_b);
    let right = pools.type_arrow(int_c, string_type);
    let dummy_span = pools.dummy_span();
    let result = ctx.unify(&mut pools, left, right, &Vec::new(), dummy_span, dummy_span);
    assert!(result.is_err());
}

#[test]
fn unify_arrows_with_equal_parts_succeeds() {
    let mut pools = Pools::new();
    let mut ctx = PooledTypingContext::new();
    let int_a = pools.type_int();
    let string_a = pools.type_string();
    let int_b = pools.type_int();
    let string_b = pools.type_string();
    let left = pools.type_arrow(int_a, string_a);
    let right = pools.type_arrow(int_b, string_b);
    let dummy_span = pools.dummy_span();
    let result = ctx.unify(&mut pools, left, right, &Vec::new(), dummy_span, dummy_span);
    assert!(result.is_ok());
}

#[test]
fn generalize_quantifies_free_variables() {
    let mut pools = Pools::new();
    let ctx = PooledTypingContext::new();
    let alpha = pools.type_var(7);
    let arrow = pools.type_arrow(alpha, alpha);
    let scheme = ctx.generalize_type(&pools, arrow);
    assert_eq!(scheme.quantified.len(), 1);
    assert_eq!(scheme.display(&pools), "∀α0. α0 → α0");
}

#[test]
fn literal_body_against_other_declared_type_is_reported() {
    let mut pools = Pools::new();
    let mut ctx = PooledTypingContext::new();
    let int_type = pools.type_int();
    let f = wand::intern_str(&mut pools.interner, "f");
    pools.bind_global_scheme(f, wand::types::TypeScheme::new(Vec::new(), int_type));
    let text = wand::intern_str(&mut pools.interner, "hello");
    let dummy_span = pools.dummy_span();
    let body = pools.string_span(text, dummy_span);
    pools.add_function_implementation(f, body);
    let result = ctx.verify_function_signatures(&mut pools);
    assert!(result.is_err());

    let mut pools = Pools::new();
    let mut ctx = PooledTypingContext::new();
    let int_type = pools.type_int();
    let g = wand::intern_str(&mut pools.interner, "g");
    pools.bind_global_scheme(g, wand::types::TypeScheme::new(Vec::new(), int_type));
    let body = pools.int_expr(7);
    pools.add_function_implementation(g, body);
    assert!(ctx.verify_function_signatures(&mut pools).is_ok());
}

#[test]
fn calling_a_literal_is_a_type_error() {
    let mut pools = Pools::new();
    let mut ctx = PooledTypingContext::new();
    let callee = pools.int_expr(42);
    let arg = pools.int_expr(1);
    let dummy_span = pools.dummy_span();
    let call = pools.call_span(callee, arg, dummy_span);
    assert!(ctx.infer_type(&mut pools, call).is_err());
}

#[test]
fn global_variable_has_its_scheme_type() {
    let mut pools = Pools::new();
    let mut ctx = PooledTypingContext::new();
    let int_type = pools.type_int();
    let g = wand::intern_str(&mut pools.interner, "g");
    pools.bind_global_scheme(g, wand::types::TypeScheme::new(Vec::new(), int_type));
    let e = pools.global_var(wand::pools::GlobalVarIdx(0), g);
    let t = ctx.infer_type(&mut pools, e).unwrap();
    assert!(matches!(pools.types[t.0], Type::Int(_)));
}

#[test]
fn unify_data_types_of_different_names_fails() {
    let mut pools = Pools::new();
    let mut ctx = PooledTypingContext::new();
    let boolean = wand::intern_str(&mut pools.interner, "Boolean");
    let color = wand::intern_str(&mut pools.interner, "Color");
    let left = pools.data_type(boolean, &[]);
    let right = pools.data_type(color, &[]);
    let int_type = pools.type_int();
    let dummy_span = pools.dummy_span();
    assert!(ctx.unify(&mut pools, left, right, &Vec::new(), dummy_span, dummy_span).is_err());
    assert!(ctx.unify(&mut pools, left, int_type, &Vec::new(), dummy_span, dummy_span).is_err());
    let same = pools.data_type(boolean, &[]);
    assert!(ctx.unify(&mut pools, left, same, &Vec::new(), dummy_span, dummy_span).is_ok());
}

#[test]
fn definition_group_binds_generalized_scheme() {
    let mut pools = Pools::new();
    let mut ctx = PooledTypingContext::new();
    let id = wand::intern_str(&mut pools.interner, "id");
    let x = wand::intern_str(&mut pools.interner, "x");
    let body = pools.expr_var(wand::pools::DeBruijnIndex(0), x);
    let lam = pools.lambda(body, x);
    pools.add_function_implementation(id, lam);
    let groups = vec![wand::dependency_analysis::DefinitionGroup { definitions: vec![id], is_recursive: false }];
    assert!(ctx.infer_definition_groups(&mut pools, &groups).is_ok());
    let scheme = pools.get_global_scheme(&id).unwrap();
    assert_eq!(scheme.quantified.len(), 1);
    assert!(matches!(pools.types[scheme.ty.0], Type::Arrow(_, _, _)));
}

#[test]
fn variable_meeting_an_arrow_is_bound_to_it() {
    let mut pools = Pools::new();
    let mut ctx = PooledTypingContext::new();
    let alpha = pools.type_var(0);
    let int_type = pools.type_int();
    let arrow = pools.type_arrow(int_type, int_type);
    let dummy_span = pools.dummy_span();
    assert!(ctx.unify(&mut pools, alpha, arrow, &Vec::new(), dummy_span, dummy_span).is_ok());
    let bound = ctx.apply_substitutions(&mut pools, alpha);
    assert!(matches!(pools.get_type(bound), Type::Arrow(_, _, _)));
}

#[test]
fn protected_variable_as_second_type_stays_free() {
    let mut pools = Pools::new();
    let mut ctx = PooledTypingContext::new();
    let alpha = pools.type_var(0);
    let int_type = pools.type_int();
    let protected = vec![TypeVarId::new(0)];
    let dummy_span = pools.dummy_span();
    assert!(ctx.unify(&mut pools, int_type, alpha, &protected, dummy_span, dummy_span).is_ok());
    let still = ctx.apply_substitutions(&mut pools, alpha);
    assert!(matches!(pools.get_type(still), Type::Var(_, _)));
}

#[test]
fn calling_a_literal_inside_a_lambda_fails() {
    let mut pools = Pools::new();
    let mut ctx = PooledTypingContext::new();
    let x = wand::intern_str(&mut pools.interner, "x");
    let callee = pools.int_expr(1);
    let arg = pools.int_expr(2);
    let call = pools.call(callee, arg);
    let lam = pools.lambda(call, x);
    assert!(ctx.infer_type(&mut pools, lam).is_err());
}

#[test]
fn variable_inside_the_other_type_fails_the_occurs_check() {
    let mut pools = Pools::new();
    let mut ctx = PooledTypingContext::new();
    let alpha = pools.type_var(0);
    let int_type = pools.type_int();
    let arrow = pools.type_arrow(alpha, int_type);
    let dummy_span = pools.dummy_span();
    let result = ctx.unify(&mut pools, alpha, arrow, &Vec::new(), dummy_span, dummy_span);
    match result {
        Err(wand::error::RichTypeError::OccursCheck(info)) => assert_eq!(info.var.0, 0),
        other => panic!("expected an occurs check failure, got {:?}", other),
    }
}
