use wand::interpreter::setup_arithmetic_intrinsics;
use wand::pools::Pools;
use wand::transpiler::JavaScriptTranspiler;

fn transpile(input: &str) -> Result<String, String> {
    let mut pools = Pools::new();
    setup_arithmetic_intrinsics(&mut pools);
    let mut transpiler = JavaScriptTranspiler::new();
    transpiler.transpile_program(input, &mut pools, "test.wand")
}

#[test]
fn transpiles_main_function() {
    let js = transpile("fun main() -> Int { add 1 2 };").expect("transpile");
    assert!(js.starts_with("// Wand Runtime Library\nclass WandValue {\n"));
    assert!(
        js.contains("const main = () => ((add)(1))(2);") || js.contains("const main = (() => ((add)(1))(2));"),
        "got: {js}"
    );
    assert!(js.ends_with("// Execute main function\nconst result = main();\nconsole.log('Result:', result);\n"));
}

#[test]
fn transpiles_constructors_and_matches() {
    let program = "data Maybe a = Nothing | Just a;\nfun main() -> Int { match Just 3 with | Nothing -> 0 | Just x -> x };";
    let js = transpile(program).expect("transpile");
    assert!(js.contains("const Nothing = wandConstructor('Nothing');"), "got: {js}");
    assert!(js.contains("const Just = (arg0) => wandConstructor('Just', arg0);"), "got: {js}");
    assert!(js.contains("wandMatch(Just(3), [[{ type: 'constructor', name: 'Nothing', patterns: [] }, () => 0], [{ type: 'constructor', name: 'Just', patterns: [{ type: 'variable', name: 'x' }] }, (x) => x]])"), "got: {js}");
}

#[test]
fn transpile_requires_main() {
    let result = transpile("fun helper() -> Int { 1 };");
    assert_eq!(result, Err("No main function found. Program must have a 'main' function.".to_string()));
}

#[test]
fn transpile_reports_diagnostics() {
    let mut pools = Pools::new();
    setup_arithmetic_intrinsics(&mut pools);
    let mut transpiler = JavaScriptTranspiler::new();
    transpiler.transpile_program("fun main() -> Int { 42 };", &mut pools, "t.wand").expect("transpile");
    assert!(transpiler.diagnostics().iter().any(|line| line.starts_with("main: ")));
}

#[test]
fn a_program_without_main_is_refused() {
    let mut pools = Pools::new();
    let mut transpiler = JavaScriptTranspiler::new();
    assert_eq!(
        transpiler.transpile_program("7", &mut pools, "test.wand"),
        Err("No main function found. Program must have a 'main' function.".to_string())
    );
}
