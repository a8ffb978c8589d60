use wand::dependency_analysis::{extract_dependencies, topological_sort_declarations, Declaration, DeclarationKind};
use wand::pools::{ExprId, GlobalVarIdx, Pools};
use wand::{intern_str, StringInterner};

#[test]
fn test_simple_dependency_order() {
    let mut interner = StringInterner::new();
    let main = intern_str(&mut interner, "main");
    let helper = intern_str(&mut interner, "helper");
    let declarations = vec![
        Declaration { name: main, kind: DeclarationKind::Function(ExprId(0)), dependencies: vec![helper] },
        Declaration { name: helper, kind: DeclarationKind::Function(ExprId(1)), dependencies: Vec::new() },
    ];

    let groups = topological_sort_declarations(declarations);

    assert_eq!(groups.len(), 2);
    assert_eq!(groups[0].definitions, vec![helper]);
    assert_eq!(groups[1].definitions, vec![main]);
    assert!(!groups[0].is_recursive);
    assert!(!groups[1].is_recursive);
}

#[test]
fn test_mutual_recursion() {
    let mut interner = StringInterner::new();
    let even = intern_str(&mut interner, "even");
    let odd = intern_str(&mut interner, "odd");
    let declarations = vec![
        Declaration { name: even, kind: DeclarationKind::Function(ExprId(0)), dependencies: vec![odd] },
        Declaration { name: odd, kind: DeclarationKind::Function(ExprId(1)), dependencies: vec![even] },
    ];

    let groups = topological_sort_declarations(declarations);

    assert_eq!(groups.len(), 1);
    assert_eq!(groups[0].definitions.len(), 2);
    assert!(groups[0].is_recursive);
    assert!(groups[0].definitions.contains(&even));
    assert!(groups[0].definitions.contains(&odd));
}

#[test]
fn test_self_recursion() {
    let mut interner = StringInterner::new();
    let factorial = intern_str(&mut interner, "factorial");
    let factorial_deps = vec![factorial];

    let declarations = vec![Declaration {
        name: factorial,
        kind: DeclarationKind::Function(ExprId(0)),
        dependencies: factorial_deps,
    }];

    let groups = topological_sort_declarations(declarations);

    assert_eq!(groups.len(), 1);
    assert_eq!(groups[0].definitions, vec![factorial]);
    assert!(groups[0].is_recursive);
}

#[test]
fn independent_declarations_each_form_a_group() {
    let mut interner = StringInterner::new();
    let a = intern_str(&mut interner, "a");
    let b = intern_str(&mut interner, "b");
    let declarations = vec![
        Declaration { name: a, kind: DeclarationKind::Function(ExprId(0)), dependencies: Vec::new() },
        Declaration { name: b, kind: DeclarationKind::DataType, dependencies: Vec::new() },
    ];
    let groups = topological_sort_declarations(declarations);
    assert_eq!(groups.len(), 2);
    assert!(groups.iter().all(|g| !g.is_recursive && g.definitions.len() == 1));
}

#[test]
fn interning_twice_gives_the_same_handle() {
    let mut interner = StringInterner::new();
    let a = intern_str(&mut interner, "alpha");
    let b = intern_str(&mut interner, "beta");
    let a2 = intern_str(&mut interner, "alpha");
    assert_eq!(a, a2);
    assert_ne!(a, b);
    assert_eq!(interner.resolve(a), "alpha");
    assert_eq!(interner.len(), 2);
}

#[test]
fn chain_of_uses_is_ordered_first_to_last() {
    let mut interner = StringInterner::new();
    let a = intern_str(&mut interner, "a");
    let b = intern_str(&mut interner, "b");
    let c = intern_str(&mut interner, "c");
    let declarations = vec![
        Declaration { name: c, kind: DeclarationKind::Function(ExprId(0)), dependencies: vec![b] },
        Declaration { name: b, kind: DeclarationKind::Function(ExprId(1)), dependencies: vec![a] },
        Declaration { name: a, kind: DeclarationKind::Function(ExprId(2)), dependencies: Vec::new() },
    ];
    let groups = topological_sort_declarations(declarations);
    assert_eq!(groups.len(), 3);
    assert_eq!(groups[0].definitions, vec![a]);
    assert_eq!(groups[1].definitions, vec![b]);
    assert_eq!(groups[2].definitions, vec![c]);
}

#[test]
fn dependencies_are_the_globals_and_constructors_used() {
    let mut pools = Pools::new();
    let f = intern_str(&mut pools.interner, "f");
    let k = intern_str(&mut pools.interner, "K");
    let unit = pools.unit();
    let built = pools.construct(k, unit);
    let fun = pools.global_var(GlobalVarIdx(0), f);
    let call = pools.call(fun, built);
    let again = pools.global_var(GlobalVarIdx(0), f);
    let both = pools.call(again, call);
    let deps = extract_dependencies(both, &pools);
    assert_eq!(deps, vec![f, k]);
    assert!(extract_dependencies(unit, &pools).is_empty());
}

#[test]
fn constructors_stand_alone_in_groups() {
    let mut pools = Pools::new();
    let program = "data Maybe a = Nothing | Just a;\nfun main() -> Int { match Just 3 with | Nothing -> 0 | Just x -> x };";
    wand::parser::LambdaParser::parse_program_to_pool(program, &mut pools).unwrap();
    let groups = wand::dependency_analysis::analyze_pool_dependencies(&pools);
    let just = intern_str(&mut pools.interner, "Just");
    let nothing = intern_str(&mut pools.interner, "Nothing");
    let main = intern_str(&mut pools.interner, "main");
    for name in [just, nothing] {
        let g = groups.iter().position(|g| g.definitions.contains(&name)).unwrap();
        assert_eq!(groups[g].definitions, vec![name]);
        assert!(!groups[g].is_recursive);
    }
    let gm = groups.iter().position(|g| g.definitions.contains(&main)).unwrap();
    let gj = groups.iter().position(|g| g.definitions.contains(&just)).unwrap();
    assert!(gj < gm);
}
