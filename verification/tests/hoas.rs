use wand::eval::hoas::{evaluate_pooled, EvalError, PooledEnv, PooledValue};
use wand::intern_str;
use wand::parser::LambdaParser;
use wand::pools::Pools;
use wand::types::TypeScheme;

fn eval_expr(input: &str, env: &PooledEnv, pools: &mut Pools) -> PooledValue {
    let int_type = pools.type_int();
    let arrow1 = pools.type_arrow(int_type, int_type);
    let arrow2 = pools.type_arrow(int_type, arrow1);
    let add_scheme = TypeScheme::new(Vec::new(), arrow2);
    let add = intern_str(&mut pools.interner, "add");
    pools.bind_global_scheme(add, add_scheme);

    match LambdaParser::parse_program_to_pool(input, pools) {
        Ok(exprs) => evaluate_pooled(exprs[0], pools, env).expect("evaluation failed"),
        Err(e) => panic!("Parse error: {e:?}"),
    }
}

#[test]
fn test_basic_integers() {
    let mut pools = Pools::new();
    let env = PooledEnv::new();
    assert_eq!(eval_expr("42", &env, &mut pools), PooledValue::Int(42));
    assert_eq!(eval_expr("-7", &env, &mut pools), PooledValue::Int(-7));
}

#[test]
fn test_identity_function() {
    let mut pools = Pools::new();
    let env = PooledEnv::new();

    let identity = eval_expr("fn x => x", &env, &mut pools);

    match identity {
        PooledValue::Function(f) => {
            let result = f.call(&pools, PooledValue::Int(42)).unwrap();
            assert_eq!(result, PooledValue::Int(42));
        }
        _ => panic!("Expected a function"),
    }
}

#[test]
fn test_application() {
    let mut pools = Pools::new();
    let env = PooledEnv::new();

    let result = eval_expr("(fn x => x) 42", &env, &mut pools);
    assert_eq!(result, PooledValue::Int(42));
}

#[test]
fn test_higher_order_functions() {
    let mut pools = Pools::new();
    let env = PooledEnv::with_intrinsics(&mut pools);

    let result = eval_expr("((fn f => fn x => f x) (fn n => add n 1)) 5", &env, &mut pools);
    assert_eq!(result, PooledValue::Int(6));
}

#[test]
fn test_lambda_display_with_captured_variables() {
    let mut eval_pools = Pools::new();
    let env = PooledEnv::new();

    let result = eval_expr("let x = 42 in fn y => x", &env, &mut eval_pools);
    match &result {
        PooledValue::Function(_f) => {
            let mut pools = Pools::new();
            match LambdaParser::parse_program_to_pool("let x = 42 in fn y => x", &mut pools) {
                Ok(_) => {
                    let _display = result.display_with_pool(&pools);
                }
                Err(_) => panic!("Parse failed"),
            }
        }
        _ => panic!("Expected a function"),
    }
}

#[test]
fn test_partial_application_display() {
    let mut eval_pools = Pools::new();
    let env = PooledEnv::new();

    let result = eval_expr("let id = fn x y => x in (id 2)", &env, &mut eval_pools);
    match &result {
        PooledValue::Function(_f) => {
            let mut pools = Pools::new();
            match LambdaParser::parse_program_to_pool("let id = fn x y => x in (id 2)", &mut pools) {
                Ok(_) => {
                    let _display = result.display_with_pool(&pools);
                }
                Err(_) => panic!("Parse failed"),
            }
        }
        _ => panic!("Expected a function"),
    }
}

#[test]
fn test_simple_lambda_display() {
    let mut eval_pools = Pools::new();
    let env = PooledEnv::new();

    let result = eval_expr("fn x => x", &env, &mut eval_pools);
    match &result {
        PooledValue::Function(_f) => {
            let mut pools = Pools::new();
            match LambdaParser::parse_program_to_pool("fn x => x", &mut pools) {
                Ok(_) => {
                    let _display = result.display_with_pool(&pools);
                }
                Err(_) => panic!("Parse failed"),
            }
        }
        _ => panic!("Expected a function"),
    }
}

#[test]
fn test_nested_functions() {
    let mut pools = Pools::new();
    let env = PooledEnv::new();

    let first = eval_expr("fn x y => x", &env, &mut pools);

    match first {
        PooledValue::Function(f) => {
            let partial = f.call(&pools, PooledValue::Int(10)).unwrap();

            match partial {
                PooledValue::Function(g) => {
                    let result = g.call(&pools, PooledValue::Int(20)).unwrap();
                    assert_eq!(result, PooledValue::Int(10));
                }
                _ => panic!("Expected a function"),
            }
        }
        _ => panic!("Expected a function"),
    }

    let result = eval_expr("((fn x => fn y => x) 10) 20", &env, &mut pools);
    assert_eq!(result, PooledValue::Int(10));
}

#[test]
fn test_variable_shadowing() {
    let mut pools = Pools::new();
    let env = PooledEnv::new();

    let result = eval_expr("((fn x => fn x => x) 10) 20", &env, &mut pools);
    assert_eq!(result, PooledValue::Int(20));
}

#[test]
fn test_closure_preservation() {
    let mut pools = Pools::new();
    let env = PooledEnv::with_intrinsics(&mut pools);

    let add_z = eval_expr("let z = 10 in fn x => add z x", &env, &mut pools);

    match add_z {
        PooledValue::Function(f) => {
            let result = f.call(&pools, PooledValue::Int(5)).unwrap();
            assert_eq!(result, PooledValue::Int(15));
        }
        _ => panic!("Expected a function"),
    }
}

#[test]
fn test_church_encoding() {
    let mut pools = Pools::new();
    let env = PooledEnv::with_intrinsics(&mut pools);

    let church_0 = "fn f => fn x => x";
    let church_1 = "fn f x => f x";
    let church_2 = "fn f x => f (f x)";
    let church_3 = "fn f x => f (f (f x))";
    let succ = "fn n f x => f (n f x)";

    let expr = format!("({succ}) ({church_2})");
    let _church_3_result = eval_expr(&expr, &env, &mut pools);

    let mut to_int = |church: &str| {
        let church_val = eval_expr(church, &env, &mut pools);

        match church_val {
            PooledValue::Function(n) => {
                let inc = eval_expr("fn n => add n 1", &env, &mut pools);

                let inc_n_times = n.call(&pools, inc).unwrap();

                match inc_n_times {
                    PooledValue::Function(inc_f) => {
                        let result = inc_f.call(&pools, PooledValue::Int(0)).unwrap();
                        match result {
                            PooledValue::Int(n) => n,
                            _ => panic!("Expected an integer"),
                        }
                    }
                    _ => panic!("Expected a function"),
                }
            }
            _ => panic!("Expected a function"),
        }
    };

    assert_eq!(to_int(church_0), 0);
    assert_eq!(to_int(church_1), 1);
    assert_eq!(to_int(church_2), 2);
    assert_eq!(to_int(church_3), 3);

    let church_3_int = to_int(&format!("({succ}) ({church_2})"));
    assert_eq!(church_3_int, 3);
}

#[test]
fn test_add_intrinsic() {
    let mut pools = Pools::new();
    let env = PooledEnv::with_intrinsics(&mut pools);

    let result = eval_expr("add 1 2", &env, &mut pools);
    assert_eq!(result, PooledValue::Int(3));

    let result = eval_expr("add 10 20", &env, &mut pools);
    assert_eq!(result, PooledValue::Int(30));

    let result = eval_expr("add 0 5", &env, &mut pools);
    assert_eq!(result, PooledValue::Int(5));

    let result = eval_expr("((add) 7) 8", &env, &mut pools);
    assert_eq!(result, PooledValue::Int(15));
}

#[test]
fn value_rendering() {
    let mut pools = Pools::new();
    let env = PooledEnv::with_intrinsics(&mut pools);
    let v = eval_expr("{a: 1, b: -2}", &env, &mut pools);
    assert_eq!(v.display_with_pool(&pools), "{a: 1, b: -2}");
    // The global `add` shows as its own value, whose body is the pool's first expression.
    let v = eval_expr("let y = 5 in fn x => add x y", &env, &mut pools);
    assert_eq!(v.display_with_pool(&pools), "λx.λx.1 x 5");
    assert_eq!(PooledValue::Unit.display_with_pool(&pools), "()");
}

#[test]
fn record_extension_replaces_in_place() {
    let mut pools = Pools::new();
    let env = PooledEnv::new();
    let v = eval_expr("{{a: 1, b: 2} with a: 3, c: 4}", &env, &mut pools);
    assert_eq!(v.display_with_pool(&pools), "{a: 3, b: 2, c: 4}");
    let v = eval_expr("{a: 1, b: 2}.b", &env, &mut pools);
    assert_eq!(v, PooledValue::Int(2));
}

#[test]
fn evaluation_errors() {
    let mut pools = Pools::new();
    let env = PooledEnv::with_intrinsics(&mut pools);
    let int_type = pools.type_int();
    let arrow1 = pools.type_arrow(int_type, int_type);
    let arrow2 = pools.type_arrow(int_type, arrow1);
    let add = intern_str(&mut pools.interner, "add");
    pools.bind_global_scheme(add, TypeScheme::new(Vec::new(), arrow2));
    let parse = |pools: &mut Pools, s: &str| LambdaParser::parse_program_to_pool(s, pools).unwrap()[0];
    let e = parse(&mut pools, "42 1");
    assert_eq!(evaluate_pooled(e, &pools, &env), Err(EvalError::NotAFunction));
    let e = parse(&mut pools, "{a: 1}.b");
    assert!(matches!(evaluate_pooled(e, &pools, &env), Err(EvalError::MissingField(_))));
    let e = parse(&mut pools, "add 9223372036854775807 1");
    assert_eq!(evaluate_pooled(e, &pools, &env), Err(EvalError::IntegerOverflow));
    let e = parse(&mut pools, "match 3 with | 4 -> 1");
    assert_eq!(evaluate_pooled(e, &pools, &env), Err(EvalError::NonExhaustiveMatch));
}

#[test]
fn value_equality_ignores_field_order() {
    let mut pools = Pools::new();
    let env = PooledEnv::new();
    let a = eval_expr("{x: 1, y: 2}", &env, &mut pools);
    let b = eval_expr("{y: 2, x: 1}", &env, &mut pools);
    assert_eq!(a, b);
    let c = eval_expr("{x: 1, y: 3}", &env, &mut pools);
    assert_ne!(a, c);
    let f = eval_expr("fn x => x", &env, &mut pools);
    assert!(f != f.copy());
}

#[test]
fn extended_environment_lookup() {
    let env = PooledEnv::new();
    let env1 = env.extend(PooledValue::Int(1));
    let env2 = env1.extend(PooledValue::Int(2));
    assert_eq!(env2.lookup(wand::pools::DeBruijnIndex(0)), Some(PooledValue::Int(2)));
    assert_eq!(env2.lookup(wand::pools::DeBruijnIndex(1)), Some(PooledValue::Int(1)));
    assert_eq!(env2.lookup(wand::pools::DeBruijnIndex(2)), None);
}

#[test]
fn global_binding_replaces_earlier_binding() {
    let mut pools = Pools::new();
    let mut env = PooledEnv::new();
    let name = intern_str(&mut pools.interner, "g");
    env.insert_global(name, PooledValue::Int(1));
    env.insert_global(name, PooledValue::Int(2));
    assert_eq!(env.lookup_global(name), Some(PooledValue::Int(2)));
    assert_eq!(env.globals.len(), 1);
}

