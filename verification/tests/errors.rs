use wand::error::RichTypeError;
use wand::intern_str;
use wand::pools::Pools;
use wand::type_inference::PooledTypingContext;

#[test]
fn unbound_variable_with_location() {
    let mut pools = Pools::new();
    let name = intern_str(&mut pools.interner, "foo");
    let span = pools.localization(3, 6);
    let err = RichTypeError::unbound_variable(name, span);
    assert_eq!(err.display_with_location(&pools), "Unbound variable 'foo' at 3:6");
    let ctx = PooledTypingContext::new();
    assert_eq!(err.display_emacs_format(&pools, &ctx, "ab\ncdefgh", "f.wand"), "f.wand:2:1: Unbound variable 'foo'\n");
}

#[test]
fn dummy_span_has_unknown_location() {
    let mut pools = Pools::new();
    let name = intern_str(&mut pools.interner, "Bar");
    let span = pools.dummy_span();
    let err = RichTypeError::unknown_constructor(name, span);
    assert_eq!(err.display_with_location(&pools), "Unknown constructor 'Bar' at unknown location");
    let ctx = PooledTypingContext::new();
    assert_eq!(err.display_emacs_format(&pools, &ctx, "", "x.wand"), "x.wand:1:1: Unknown constructor 'Bar'\n");
}

#[test]
fn non_exhaustive_lists_missing_patterns() {
    let mut pools = Pools::new();
    let span = pools.localization(0, 4);
    let int_type = pools.type_int();
    let err = RichTypeError::non_exhaustive_patterns(vec!["A".to_string(), "B".to_string()], span, int_type);
    assert_eq!(err.display_with_location(&pools), "NonExhaustivePatterns: Missing patterns A, B at 0:4");
}

#[test]
fn comprehensive_report_shows_source_context() {
    let mut pools = Pools::new();
    let name = intern_str(&mut pools.interner, "zz");
    let span = pools.localization(4, 6);
    let err = RichTypeError::unbound_variable(name, span);
    let ctx = PooledTypingContext::new();
    let report = err.display_comprehensive(&pools, &ctx, "let\nzz 1\nend", "s.wand");
    assert!(report.starts_with("s.wand:2:1: Unbound variable 'zz'\n\n"), "got: {report}");
    assert!(report.contains(">   2 | zz 1\n     | ^^\n"), "got: {report}");
    assert!(report.contains("Type inference context:\n"), "got: {report}");
}

#[test]
fn comprehensive_report_is_exact() {
    let mut pools = Pools::new();
    let name = intern_str(&mut pools.interner, "zz");
    let span = pools.localization(4, 6);
    let err = RichTypeError::unbound_variable(name, span);
    let ctx = PooledTypingContext::new();
    let report = err.display_comprehensive(&pools, &ctx, "let\nzz 1\nend", "s.wand");
    assert_eq!(
        report,
        "s.wand:2:1: Unbound variable 'zz'\n\n    1 | let\n>   2 | zz 1\n     | ^^\n    3 | end\n\nType inference context:\nGlobal functions:\n"
    );
}

#[test]
fn arity_mismatch_report_points_at_both_places() {
    let mut pools = Pools::new();
    let found_span = pools.localization(0, 1);
    let expected_span = pools.localization(2, 3);
    let int_type = pools.type_int();
    let unit_type = pools.type_unit();
    let err = RichTypeError::arity_mismatch(int_type, unit_type, 2, 3, expected_span, found_span);
    let ctx = PooledTypingContext::new();
    assert_eq!(
        err.display_emacs_format(&pools, &ctx, "a\nb", "m.wand"),
        "m.wand:1:1: Arity mismatch: expected Int with 2 parameters, found () with 3 parameters\nm.wand:2:1: Expected type 'Int' comes from here\n"
    );
    assert_eq!(
        err.display_with_location(&pools),
        "Arity mismatch: expected Int with 2 parameters, found () with 3 parameters at 0:1"
    );
}
