use wand::kind_checker::{check_data_definition_kinds, check_type_kinds, KindError};
use wand::pools::Pools;
use wand::types::RowField;

#[test]
fn base_types_have_kind_star() {
    let mut pools = Pools::new();
    let int_type = pools.type_int();
    let string_type = pools.type_string();
    let arrow = pools.type_arrow(int_type, string_type);
    assert!(check_type_kinds(&mut pools, int_type).is_ok());
    assert!(check_type_kinds(&mut pools, arrow).is_ok());
}

#[test]
fn unknown_data_type_is_unbound() {
    let mut pools = Pools::new();
    let name = pools.interner.intern("Missing");
    let missing = pools.data_type(name, &[]);
    match check_type_kinds(&mut pools, missing) {
        Err(KindError::UnboundTypeConstructor(n)) => assert_eq!(n, name),
        other => panic!("unexpected result {:?}", other),
    }
}

#[test]
fn data_type_applied_to_its_parameters_is_well_kinded() {
    let mut pools = Pools::new();
    let tree = pools.interner.intern("Tree");
    let a = pools.interner.intern("a");
    let b = pools.interner.intern("b");
    assert!(check_data_definition_kinds(&mut pools, tree, &[a, b], &[]).is_ok());
    let int_type = pools.type_int();
    let string_type = pools.type_string();
    let applied = pools.data_type(tree, &[int_type, string_type]);
    assert!(check_type_kinds(&mut pools, applied).is_ok());
    let nested = pools.data_type(tree, &[applied, int_type]);
    assert!(check_type_kinds(&mut pools, nested).is_ok());
}

#[test]
fn data_type_with_too_few_arguments_is_an_arity_mismatch() {
    let mut pools = Pools::new();
    let tree = pools.interner.intern("Tree");
    let a = pools.interner.intern("a");
    let b = pools.interner.intern("b");
    assert!(check_data_definition_kinds(&mut pools, tree, &[a, b], &[]).is_ok());
    let int_type = pools.type_int();
    let partial = pools.data_type(tree, &[int_type]);
    match check_type_kinds(&mut pools, partial) {
        Err(KindError::ArityMismatch { constructor, expected, actual }) => {
            assert_eq!(constructor, tree);
            assert_eq!(expected, 2);
            assert_eq!(actual, 1);
        },
        other => panic!("unexpected result {:?}", other),
    }
}

#[test]
fn argument_of_the_wrong_kind_is_refused() {
    let mut pools = Pools::new();
    let wrapper = pools.interner.intern("Wrap");
    let star = pools.kind_star();
    let star_to_star = pools.kind_arrow(star, star);
    let result = pools.kind_star();
    let higher = pools.kind_arrow(star_to_star, result);
    pools.bind_type_constructor_kind(wrapper, higher);
    let int_type = pools.type_int();
    let wrapped = pools.data_type(wrapper, &[int_type]);
    assert!(matches!(check_type_kinds(&mut pools, wrapped), Err(KindError::KindMismatch { .. })));
}

#[test]
fn constructor_component_types_are_checked_in_the_definition() {
    let mut pools = Pools::new();
    let list = pools.interner.intern("List");
    let a = pools.interner.intern("a");
    let cons = pools.interner.intern("Cons");
    let nil = pools.interner.intern("Nil");
    let var = pools.type_var(0);
    let good = pools.data_type(list, &[var]);
    assert!(check_data_definition_kinds(&mut pools, list, &[a], &[(cons, Some(good)), (nil, None)]).is_ok());
    let bad = pools.data_type(list, &[]);
    assert!(check_data_definition_kinds(&mut pools, list, &[a], &[(cons, Some(bad))]).is_err());
}

#[test]
fn record_rows_need_field_types_of_kind_star() {
    let mut pools = Pools::new();
    let list = pools.interner.intern("List");
    let a = pools.interner.intern("a");
    assert!(check_data_definition_kinds(&mut pools, list, &[a], &[]).is_ok());
    let field = pools.interner.intern("items");
    let int_type = pools.type_int();
    let good_list = pools.data_type(list, &[int_type]);
    let rest = pools.type_empty_row();
    let good = pools.type_row(&[RowField { name: field, field_type: good_list }], rest);
    assert!(check_type_kinds(&mut pools, good).is_ok());
    let bare_list = pools.data_type(list, &[]);
    let bad = pools.type_row(&[RowField { name: field, field_type: bare_list }], rest);
    assert!(check_type_kinds(&mut pools, bad).is_err());
}
