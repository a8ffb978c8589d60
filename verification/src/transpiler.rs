//! Translation of checked programs to JavaScript.
use vstd::prelude::*;

use crate::dependency_analysis::analyze_pool_dependencies;
use crate::expr::{expr_text, Expr, MatchArms, MatchCase, Pattern};
use crate::parser::LambdaParser;
use crate::pools::{assoc_get, ExprId, PatternId, Pools, SpanId, TypeId, TypeVarId};
use crate::error::starts_with;
use crate::text::{chars_eq_str, chars_to_string, int_text, nat_digits, push_chars, push_isize, push_str, push_usize, str_to_chars};
use crate::type_inference::PooledTypingContext;
use crate::types::{scheme_text, type_text, ConstructorType, Type};
use crate::InternedString;

verus! {

// ----- identifiers ---------------------------------------------------------

/// A name as a JavaScript identifier: `-` becomes `_`.
pub open spec fn js_ident(t: Seq<char>) -> Seq<char> {
    t.map_values(|c: char| if c == '-' { '_' } else { c })
}

/// The JavaScript identifier for a name.
pub fn js_identifier(pools: &Pools, name: InternedString) -> (r: Vec<char>)
    ensures
        r@ == js_ident(pools.interner.text_of(name)),
{
    let t = pools.name_chars(name);
    let mut r: Vec<char> = Vec::new();
    let mut i: usize = 0;
    while i < t.len()
        invariant
            i <= t@.len(),
            r@ == js_ident(t@.subrange(0, i as int)),
        decreases t.len() - i,
    {
        let c = t[i];
        r.push(if c == '-' { '_' } else { c });
        i = i + 1;
        assert(r@ =~= js_ident(t@.subrange(0, i as int)));
    }
    assert(t@.subrange(0, t@.len() as int) =~= t@);
    r
}

// ----- patterns ------------------------------------------------------------

/// A pattern as the JavaScript object the runtime matches against, and the
/// names of the variables it binds (a variable named `_` is named after the
/// number of variables bound before it); nested patterns are followed at most
/// `fuel` levels deep.
pub open spec fn pattern_js(p: Pools, pat: Pattern, nvars: nat, fuel: nat) -> (Seq<char>, Seq<Seq<char>>)
    decreases fuel, 0nat, 0int,
{
    match pat {
        Pattern::Wildcard(_) => ("{ type: 'wildcard' }"@, Seq::empty()),
        Pattern::Variable(_, name, _) => {
            let v = if p.interner.text_of(name) == "_"@ {
                "_wildcard"@ + nat_digits(nvars)
            } else {
                js_ident(p.interner.text_of(name))
            };
            ("{ type: 'variable', name: '"@ + v + "' }"@, seq![v])
        },
        Pattern::Int(n, _) => ("{ type: 'int', value: "@ + int_text(n as int) + " }"@, Seq::empty()),
        Pattern::String(s, _) => (
            "{ type: 'string', value: \""@ + p.interner.text_of(s) + "\" }"@,
            Seq::empty(),
        ),
        Pattern::Constructor(name, start, len, _) => {
            let inner = if fuel > 0 && len > 0 {
                nested_js(p, start.0 as int, len as int, 0, nvars, (fuel - 1) as nat)
            } else {
                (Seq::empty(), Seq::empty())
            };
            (
                "{ type: 'constructor', name: '"@ + p.interner.text_of(name) + "', patterns: ["@ + inner.0 + "] }"@,
                inner.1,
            )
        },
        Pattern::Record(..) => ("{ type: 'record' }"@, Seq::empty()),
    }
}

/// The nested patterns `i..len` of the run at `start`, separated by `, `.
pub open spec fn nested_js(p: Pools, start: int, len: int, i: int, nvars: nat, fuel: nat) -> (Seq<char>, Seq<Seq<char>>)
    decreases fuel, 1nat, len - i,
{
    if i >= len || i < 0 || start < 0 || start + len > p.nested_patterns@.len() {
        (Seq::empty(), Seq::empty())
    } else {
        let here = pattern_js(p, p.nested_patterns@[start + i], nvars, fuel);
        let rest = nested_js(p, start, len, i + 1, nvars + here.1.len(), fuel);
        ((if i > 0 { ", "@ } else { Seq::empty() }) + here.0 + rest.0, here.1 + rest.1)
    }
}

/// The names separated by `, `.
pub open spec fn comma_list(names: Seq<Seq<char>>) -> Seq<char>
    decreases names.len(),
{
    if names.len() == 0 {
        Seq::empty()
    } else if names.len() == 1 {
        names[0]
    } else {
        comma_list(names.drop_last()) + ", "@ + names.last()
    }
}

/// How deep nested patterns are followed.
pub open spec fn pattern_fuel(p: Pools) -> nat {
    p.nested_patterns@.len()
}

// ----- expressions ---------------------------------------------------------

/// Expression `e` in JavaScript: functions are curried arrow functions, a
/// call with a unit argument calls with no argument, constructors and records
/// go through the runtime's helpers and a `match` becomes a call of
/// `wandMatch` with one `[pattern, handler]` pair per case.
pub open spec fn js_text(p: Pools, e: int) -> Seq<char>
    decreases e, 2int, 0int,
{
    if e < 0 || e >= p.exprs@.len() {
        Seq::empty()
    } else {
        match p.exprs@[e] {
            Expr::Int(n, _) => int_text(n as int),
            Expr::String(s, _) => "\""@ + p.interner.text_of(s) + "\""@,
            Expr::Unit(_) => "null"@,
            Expr::Var(_, name, _) => js_ident(p.interner.text_of(name)),
            Expr::GlobalVar(_, name, _) => js_ident(p.interner.text_of(name)),
            Expr::Lambda(b, param, _) => {
                let body = if b.0 < e { js_text(p, b.0 as int) } else { Seq::empty() };
                if p.interner.text_of(param) == "()"@ {
                    "(() => "@ + body + ")"@
                } else {
                    "(("@ + js_ident(p.interner.text_of(param)) + ") => "@ + body + ")"@
                }
            },
            Expr::Call(f, a, _) => {
                let ft = if f.0 < e { js_text(p, f.0 as int) } else { Seq::empty() };
                if a.0 < p.exprs@.len() && p.exprs@[a.0 as int] is Unit {
                    ft + "()"@
                } else {
                    "("@ + ft + ")("@ + (if a.0 < e { js_text(p, a.0 as int) } else { Seq::empty() }) + ")"@
                }
            },
            Expr::Let(v, b, x, _) => "(("@ + js_ident(p.interner.text_of(x)) + " => "@ + (if b.0 < e {
                js_text(p, b.0 as int)
            } else {
                Seq::empty()
            }) + ")("@ + (if v.0 < e { js_text(p, v.0 as int) } else { Seq::empty() }) + "))"@,
            Expr::Construct(c, a, _) => if a.0 < p.exprs@.len() && p.exprs@[a.0 as int] is Unit {
                js_ident(p.interner.text_of(c))
            } else {
                js_ident(p.interner.text_of(c)) + "("@ + (if a.0 < e { js_text(p, a.0 as int) } else { Seq::empty() })
                    + ")"@
            },
            Expr::Match(x, arms, _) => "wandMatch("@ + (if x.0 < e { js_text(p, x.0 as int) } else { Seq::empty() })
                + ", ["@ + arms_js(p, e, arms, 0) + "])"@,
            Expr::Record(start, len, _) => "wandRecord({"@ + fields_js(p, e, start.0 as int, len as int, 0, false)
                + "})"@,
            Expr::Project(r, f, _) => "("@ + (if r.0 < e { js_text(p, r.0 as int) } else { Seq::empty() })
                + ".value['"@ + p.interner.text_of(f) + "'])"@,
            Expr::Extend(r, start, len, _) => "wandRecord({..."@ + (if r.0 < e {
                js_text(p, r.0 as int)
            } else {
                Seq::empty()
            }) + ".value"@ + fields_js(p, e, start.0 as int, len as int, 0, true) + "})"@,
            Expr::Ffi(code, _, arg, _) => match arg {
                Some(a) => "("@ + p.interner.text_of(code) + ")("@ + (if a.0 < e {
                    js_text(p, a.0 as int)
                } else {
                    Seq::empty()
                }) + ")"@,
                None => "("@ + p.interner.text_of(code) + ")"@,
            },
        }
    }
}

/// The fields `i..len` of the run at `start` as `'name': expr`, each preceded
/// by `, ` when `lead` holds and otherwise separated by `, `.
pub open spec fn fields_js(p: Pools, parent: int, start: int, len: int, i: int, lead: bool) -> Seq<char>
    decreases parent, 0int, len - i,
{
    if i >= len || i < 0 || start < 0 || start + len > p.record_fields@.len() {
        Seq::empty()
    } else {
        let f = p.record_fields@[start + i];
        (if lead || i > 0 { ", "@ } else { Seq::empty() }) + "'"@ + p.interner.text_of(f.name) + "': "@ + (if 0
            <= f.expr.0 < parent {
            js_text(p, f.expr.0 as int)
        } else {
            Seq::empty()
        }) + fields_js(p, parent, start, len, i + 1, lead)
    }
}

/// Case `i` of a match as `[pattern, (vars) => body]`, preceded by `, ` unless first.
pub open spec fn arm_js(p: Pools, parent: int, case: MatchCase, i: int) -> Seq<char>
    decreases parent, 0int, 0int,
{
    let pat = pattern_js(p, case.pattern, 0, pattern_fuel(p));
    (if i > 0 { ", "@ } else { Seq::empty() }) + "["@ + pat.0 + ", "@ + "("@ + comma_list(pat.1) + ") => "@ + (if 0
        <= case.body.0 < parent {
        js_text(p, case.body.0 as int)
    } else {
        Seq::empty()
    }) + "]"@
}

/// The cases `i..` of a match (`arm_js` of each).
pub open spec fn arms_js(p: Pools, parent: int, arms: MatchArms, i: int) -> Seq<char>
    decreases parent, 1int, arms.length - i,
{
    if i >= arms.length || i < 0 || arms.start_id.0 + arms.length > p.patterns@.len() {
        Seq::empty()
    } else {
        arm_js(p, parent, p.patterns@[arms.start_id.0 + i], i) + arms_js(p, parent, arms, i + 1)
    }
}

/// The text of a type node as Rust's `{:?}` shows it.
pub open spec fn type_debug(p: Pools, t: Type) -> Seq<char> {
    match t {
        Type::Int(s) => "Int("@ + span_debug(s) + ")"@,
        Type::String(s) => "String("@ + span_debug(s) + ")"@,
        Type::Unit(s) => "Unit("@ + span_debug(s) + ")"@,
        Type::Var(v, s) => "Var("@ + var_debug(v) + ", "@ + span_debug(s) + ")"@,
        Type::Arrow(a, b, s) => "Arrow("@ + type_id_debug(a) + ", "@ + type_id_debug(b) + ", "@ + span_debug(s) + ")"@,
        Type::DataType(n, start, len, s) => "DataType("@ + name_debug(n) + ", "@ + type_id_debug(start) + ", "@
            + nat_digits(len as nat) + ", "@ + span_debug(s) + ")"@,
        Type::TypeApp(v, start, len, s) => "TypeApp("@ + var_debug(v) + ", "@ + type_id_debug(start) + ", "@
            + nat_digits(len as nat) + ", "@ + span_debug(s) + ")"@,
        Type::EmptyRow(s) => "EmptyRow("@ + span_debug(s) + ")"@,
        Type::Row(start, len, rest, s) => "Row(FieldId("@ + nat_digits(start.0 as nat) + "), "@ + nat_digits(
            len as nat,
        ) + ", "@ + type_id_debug(rest) + ", "@ + span_debug(s) + ")"@,
    }
}

pub open spec fn span_debug(s: SpanId) -> Seq<char> {
    "SpanId("@ + nat_digits(s.0 as nat) + ")"@
}

pub open spec fn type_id_debug(t: TypeId) -> Seq<char> {
    "TypeId("@ + nat_digits(t.0 as nat) + ")"@
}

pub open spec fn name_debug(n: InternedString) -> Seq<char> {
    "InternedString("@ + nat_digits(n.0 as nat) + ")"@
}

pub open spec fn var_debug(v: TypeVarId) -> Seq<char> {
    "TypeVarId("@ + nat_digits(v.0 as nat) + ", "@ + match v.1 {
        Some(n) => "Some("@ + name_debug(n) + ")"@,
        None => "None"@,
    } + ")"@
}

/// The helpers every translated program starts with: the value class, the
/// constructor and record helpers, pattern matching and the arithmetic builtins.
pub open spec fn runtime_library() -> Seq<char> {
    "// Wand Runtime Library\nclass WandValue {\n  constructor(type, value) {\n    this.type = type;\n    this.value = value;\n  }\n}\n\nfunction wandConstructor(name, ...args) {\n  return new WandValue('constructor', { name, args });\n}\n\nfunction wandRecord(fields) {\n  return new WandValue('record', fields);\n}\n\nfunction wandMatch(value, cases) {\n  for (const [pattern, handler] of cases) {\n    const bindings = wandMatchPattern(pattern, value);\n    if (bindings !== null) {\n      return handler(...bindings);\n    }\n  }\n  throw new Error('Non-exhaustive pattern match');\n}\n\nfunction wandMatchPattern(pattern, value) {\n  if (pattern.type === 'wildcard') return [];\n  if (pattern.type === 'variable') return [value];\n  if (pattern.type === 'int') {\n    return value === pattern.value ? [] : null;\n  }\n  if (pattern.type === 'string') {\n    return value === pattern.value ? [] : null;\n  }\n  if (pattern.type === 'constructor') {\n    if (value.type !== 'constructor' || value.value.name !== pattern.name) return null;\n    const bindings = [];\n    for (let i = 0; i < pattern.patterns.length; i++) {\n      const subBindings = wandMatchPattern(pattern.patterns[i], value.value.args[i]);\n      if (subBindings === null) return null;\n      bindings.push(...subBindings);\n    }\n    return bindings;\n  }\n  return null;\n}\n\nconst add = (x) => (y) => x + y;\nconst sub = (x) => (y) => x - y;\nconst mul = (x) => (y) => x * y;\nconst div = (x) => (y) => x / y;\n\n"@
}

/// Text `t` occurs in `s`.
pub open spec fn occurs_in(s: Seq<char>, t: Seq<char>) -> bool {
    exists|i: int| 0 <= i && i + t.len() <= s.len() && #[trigger] s.subrange(i, i + t.len()) == t
}

/// A projection reads the field from the property in which the runtime keeps a record's
/// fields: there is one property `prop` such that the runtime's `WandValue` constructor stores
/// its payload by `this.prop = value;` (so `wandRecord(fields)` keeps `fields` there), every
/// record extension spreads `prop` of the record it extends, and a projection `r.f` is
/// `(r.prop['f'])`.
pub proof fn lemma_projection_reads_record_fields(p: Pools, e: int)
    requires
        0 <= e < p.exprs@.len(),
        p.exprs@[e] is Project,
    ensures
        exists|prop: Seq<char>| {
            &&& occurs_in(runtime_library(), "this."@ + prop + " = value;"@)
            &&& (p.exprs@[e] matches Expr::Project(r, f, _) && js_text(p, e) == "("@ + (if r.0 < e {
                js_text(p, r.0 as int)
            } else {
                Seq::empty()
            }) + "."@ + prop + "['"@ + p.interner.text_of(f) + "'])"@)
            &&& forall|x: int| 0 <= x < p.exprs@.len() && #[trigger] p.exprs@[x] is Extend ==> (
                p.exprs@[x] matches Expr::Extend(r2, start, len, _) && js_text(p, x) == "wandRecord({..."@ + (if r2.0 < x {
                    js_text(p, r2.0 as int)
                } else {
                    Seq::empty()
                }) + "."@ + prop + fields_js(p, x, start.0 as int, len as int, 0, true) + "})"@)
        },
{
    reveal_strlit("// Wand Runtime Library\nclass WandValue {\n  constructor(type, value) {\n    this.type = type;\n    this.value = value;\n  }\n}\n\nfunction wandConstructor(name, ...args) {\n  return new WandValue('constructor', { name, args });\n}\n\nfunction wandRecord(fields) {\n  return new WandValue('record', fields);\n}\n\nfunction wandMatch(value, cases) {\n  for (const [pattern, handler] of cases) {\n    const bindings = wandMatchPattern(pattern, value);\n    if (bindings !== null) {\n      return handler(...bindings);\n    }\n  }\n  throw new Error('Non-exhaustive pattern match');\n}\n\nfunction wandMatchPattern(pattern, value) {\n  if (pattern.type === 'wildcard') return [];\n  if (pattern.type === 'variable') return [value];\n  if (pattern.type === 'int') {\n    return value === pattern.value ? [] : null;\n  }\n  if (pattern.type === 'string') {\n    return value === pattern.value ? [] : null;\n  }\n  if (pattern.type === 'constructor') {\n    if (value.type !== 'constructor' || value.value.name !== pattern.name) return null;\n    const bindings = [];\n    for (let i = 0; i < pattern.patterns.length; i++) {\n      const subBindings = wandMatchPattern(pattern.patterns[i], value.value.args[i]);\n      if (subBindings === null) return null;\n      bindings.push(...subBindings);\n    }\n    return bindings;\n  }\n  return null;\n}\n\nconst add = (x) => (y) => x + y;\nconst sub = (x) => (y) => x - y;\nconst mul = (x) => (y) => x * y;\nconst div = (x) => (y) => x / y;\n\n");
    reveal_strlit("this.");
    reveal_strlit(" = value;");
    reveal_strlit("value");
    reveal_strlit(".");
    reveal_strlit(".value");
    reveal_strlit(".value['");
    reveal_strlit("['");
    let prop = "value"@;
    let needle = "this."@ + prop + " = value;"@;
    assert(runtime_library().subrange(97, 97 + needle.len() as int) =~= needle);
    assert(".value['"@ =~= "."@ + prop + "['"@);
    assert(".value"@ =~= "."@ + prop);
    if let Expr::Project(r, f, _) = p.exprs@[e] {
        let rt = if r.0 < e { js_text(p, r.0 as int) } else { Seq::empty() };
        assert(js_text(p, e) == "("@ + rt + ".value['"@ + p.interner.text_of(f) + "'])"@);
        assert("("@ + rt + ".value['"@ + p.interner.text_of(f) + "'])"@ =~= "("@ + rt + "."@ + prop + "['"@ + p.interner.text_of(f) + "'])"@);
    }
    assert forall|x: int| 0 <= x < p.exprs@.len() && #[trigger] p.exprs@[x] is Extend implies (
        p.exprs@[x] matches Expr::Extend(r2, start, len, _) && js_text(p, x) == "wandRecord({..."@ + (if r2.0 < x {
            js_text(p, r2.0 as int)
        } else {
            Seq::empty()
        }) + "."@ + prop + fields_js(p, x, start.0 as int, len as int, 0, true) + "})"@) by {
        if let Expr::Extend(r2, start, len, _) = p.exprs@[x] {
            let rt = if r2.0 < x { js_text(p, r2.0 as int) } else { Seq::empty() };
            let ft = fields_js(p, x, start.0 as int, len as int, 0, true);
            assert(js_text(p, x) == "wandRecord({..."@ + rt + ".value"@ + ft + "})"@);
            assert("wandRecord({..."@ + rt + ".value"@ + ft + "})"@ =~= "wandRecord({..."@ + rt + "."@ + prop + ft + "})"@);
        }
    }
    assert(occurs_in(runtime_library(), needle));
}

/// The number of arrows along the result positions of type `t`.
pub open spec fn arrow_count(p: Pools, t: int) -> nat
    decreases t,
{
    if 0 <= t < p.types@.len() {
        match p.types@[t] {
            Type::Arrow(_, b, _) => if b.0 < t {
                1 + arrow_count(p, b.0 as int)
            } else {
                1
            },
            _ => 0,
        }
    } else {
        0
    }
}

/// The number of arguments a constructor takes: none when its component is
/// unit, otherwise one plus the arrows of its result type.
pub open spec fn constructor_arity(p: Pools, c: ConstructorType) -> nat {
    if c.component_type.0 < p.types@.len() && p.types@[c.component_type.0 as int] is Unit {
        0
    } else {
        1 + arrow_count(p, c.result_type.0 as int)
    }
}

/// `(arg0) => (arg1) => ` for the first `n` arguments.
pub open spec fn arg_lambdas(n: nat) -> Seq<char>
    decreases n,
{
    if n == 0 {
        Seq::empty()
    } else {
        arg_lambdas((n - 1) as nat) + "(arg"@ + nat_digits((n - 1) as nat) + ") => "@
    }
}

/// `, arg0, arg1` for the first `n` arguments.
pub open spec fn arg_list(n: nat) -> Seq<char>
    decreases n,
{
    if n == 0 {
        Seq::empty()
    } else {
        arg_list((n - 1) as nat) + ", arg"@ + nat_digits((n - 1) as nat)
    }
}

/// The definition of constructor `name`: a value built from its arguments, curried.
pub open spec fn constructor_js(p: Pools, name: InternedString, c: ConstructorType) -> Seq<char> {
    let k = constructor_arity(p, c);
    "const "@ + js_ident(p.interner.text_of(name)) + " = "@ + arg_lambdas(k) + "wandConstructor('"@
        + p.interner.text_of(name) + "'"@ + arg_list(k) + ");\n"@
}

/// The definitions of the first `n` constructors.
pub open spec fn constructor_defs(p: Pools, n: int) -> Seq<char>
    decreases n,
{
    if n <= 0 {
        Seq::empty()
    } else {
        constructor_defs(p, n - 1) + constructor_js(p, p.constructors@[n - 1].0, p.constructors@[n - 1].1)
    }
}

/// The section defining every constructor of the program.
pub open spec fn constructors_js(p: Pools) -> Seq<char> {
    "// Data constructors\n"@ + constructor_defs(p, p.constructors@.len() as int) + "\n"@
}

/// Translates checked programs to JavaScript.
pub struct JavaScriptTranspiler {
    output: Vec<char>,
    diagnostics: Vec<Vec<char>>,
}

impl JavaScriptTranspiler {
    /// The JavaScript text produced so far.
    pub closed spec fn output_text(&self) -> Seq<char> {
        self.output@
    }

    pub fn new() -> (r: Self)
        ensures
            r.output_text().len() == 0,
            r.diagnostics_view().len() == 0,
    {
        JavaScriptTranspiler { output: Vec::new(), diagnostics: Vec::new() }
    }

    /// The type information lines gathered so far.
    pub closed spec fn diagnostics_view(&self) -> Seq<Seq<char>> {
        self.diagnostics@.map_values(|d: Vec<char>| d@)
    }

    /// The type information lines gathered while translating, in order.
    pub fn diagnostics(&self) -> (r: Vec<String>)
        ensures
            r@.map_values(|s: String| s@) == self.diagnostics_view(),
    {
        let mut r: Vec<String> = Vec::new();
        let mut i: usize = 0;
        while i < self.diagnostics.len()
            invariant
                i <= self.diagnostics@.len(),
                r@.len() == i,
                forall|k: int| 0 <= k < i ==> #[trigger] r@[k]@ == self.diagnostics@[k]@,
            decreases self.diagnostics@.len() - i,
        {
            r.push(chars_to_string(&self.diagnostics[i]));
            i = i + 1;
        }
        assert(r@.map_values(|s: String| s@) =~= self.diagnostics_view());
        r
    }

    /// Appends the runtime helpers.
    fn add_runtime_library(&mut self)
        ensures
            final(self).output@ == old(self).output@ + runtime_library(),
            final(self).diagnostics == old(self).diagnostics,
    {
        push_str(&mut self.output, "// Wand Runtime Library\nclass WandValue {\n  constructor(type, value) {\n    this.type = type;\n    this.value = value;\n  }\n}\n\nfunction wandConstructor(name, ...args) {\n  return new WandValue('constructor', { name, args });\n}\n\nfunction wandRecord(fields) {\n  return new WandValue('record', fields);\n}\n\nfunction wandMatch(value, cases) {\n  for (const [pattern, handler] of cases) {\n    const bindings = wandMatchPattern(pattern, value);\n    if (bindings !== null) {\n      return handler(...bindings);\n    }\n  }\n  throw new Error('Non-exhaustive pattern match');\n}\n\nfunction wandMatchPattern(pattern, value) {\n  if (pattern.type === 'wildcard') return [];\n  if (pattern.type === 'variable') return [value];\n  if (pattern.type === 'int') {\n    return value === pattern.value ? [] : null;\n  }\n  if (pattern.type === 'string') {\n    return value === pattern.value ? [] : null;\n  }\n  if (pattern.type === 'constructor') {\n    if (value.type !== 'constructor' || value.value.name !== pattern.name) return null;\n    const bindings = [];\n    for (let i = 0; i < pattern.patterns.length; i++) {\n      const subBindings = wandMatchPattern(pattern.patterns[i], value.value.args[i]);\n      if (subBindings === null) return null;\n      bindings.push(...subBindings);\n    }\n    return bindings;\n  }\n  return null;\n}\n\nconst add = (x) => (y) => x + y;\nconst sub = (x) => (y) => x - y;\nconst mul = (x) => (y) => x * y;\nconst div = (x) => (y) => x / y;\n\n");
    }

    /// The number of arguments of a constructor.
    fn get_constructor_arity(&self, constructor_type: &ConstructorType, pools: &Pools) -> (r: usize)
        requires
            pools.wf(),
            constructor_type.component_type.0 < pools.types@.len(),
            constructor_type.result_type.0 < pools.types@.len(),
        ensures
            r as nat == constructor_arity(*pools, *constructor_type),
    {
        match pools.get_type(constructor_type.component_type) {
            Type::Unit(_) => {
                return 0;
            },
            _ => {},
        }
        assert(pools.types@.len() == pools.types.len());
        1 + count_arrows(pools, constructor_type.result_type)
    }

    /// Appends [`constructors_js`].
    fn transpile_data_constructors(&mut self, pools: &Pools)
        requires
            pools.wf(),
        ensures
            final(self).output@ == old(self).output@ + constructors_js(*pools),
            final(self).diagnostics == old(self).diagnostics,
    {
        let mut text = str_to_chars("// Data constructors\n");
        let ghost h = text@;
        let mut i: usize = 0;
        while i < pools.constructors.len()
            invariant
                i <= pools.constructors@.len(),
                pools.wf(),
                text@ == h + constructor_defs(*pools, i as int),
            decreases pools.constructors@.len() - i,
        {
            let name = pools.constructors[i].0;
            let ghost t0 = text@;
            assert(pools.tables_wf());
            assert(pools.constructors@[i as int].1.component_type.0 < pools.types@.len());
            let arity = self.get_constructor_arity(&pools.constructors[i].1, pools);
            let js_name = js_identifier(pools, name);
            let name_text = pools.name_chars(name);
            push_str(&mut text, "const ");
            push_chars(&mut text, &js_name);
            push_str(&mut text, " = ");
            let ghost t1 = text@;
            let mut k: usize = 0;
            while k < arity
                invariant
                    k <= arity,
                    text@ == t1 + arg_lambdas(k as nat),
                decreases arity - k,
            {
                push_str(&mut text, "(arg");
                push_usize(&mut text, k);
                push_str(&mut text, ") => ");
                proof {
                    assert(text@ =~= t1 + arg_lambdas((k + 1) as nat));
                }
                k = k + 1;
            }
            push_str(&mut text, "wandConstructor('");
            push_chars(&mut text, &name_text);
            push_str(&mut text, "'");
            let ghost t2 = text@;
            let mut k: usize = 0;
            while k < arity
                invariant
                    k <= arity,
                    text@ == t2 + arg_list(k as nat),
                decreases arity - k,
            {
                push_str(&mut text, ", arg");
                push_usize(&mut text, k);
                proof {
                    assert(text@ =~= t2 + arg_list((k + 1) as nat));
                }
                k = k + 1;
            }
            push_str(&mut text, ");\n");
            proof {
                assert(text@ =~= t0 + constructor_js(*pools, name, pools.constructors@[i as int].1));
            }
            i = i + 1;
        }
        push_str(&mut text, "\n");
        push_chars(&mut self.output, &text);
        proof {
            assert(text@ =~= constructors_js(*pools));
        }
    }

    /// Appends expression `expr_id` in JavaScript (`js_text`).
    #[verifier::rlimit(60)]
    fn transpile_expression(&mut self, expr_id: ExprId, pools: &Pools) -> (r: Result<(), String>)
        requires
            pools.wf(),
            pools.valid_expr(expr_id),
        ensures
            r is Ok,
            final(self).output@ == old(self).output@ + js_text(*pools, expr_id.0 as int),
            final(self).diagnostics == old(self).diagnostics,
        decreases expr_id.0, 2nat, 0nat,
    {
        let ghost o = self.output@;
        let ghost e = expr_id.0 as int;
        let ghost p = *pools;
        assert(pools.expr_node_ok(pools.exprs@[e], e));
        assert(pools.exprs@.len() == pools.exprs.len());
        match pools.get_expr(expr_id) {
            Expr::Int(n, _) => {
                push_isize(&mut self.output, n);
            },
            Expr::String(st, _) => {
                push_str(&mut self.output, "\"");
                let t = pools.name_chars(st);
                push_chars(&mut self.output, &t);
                push_str(&mut self.output, "\"");
                assert(self.output@ =~= o + js_text(p, e));
            },
            Expr::Unit(_) => {
                push_str(&mut self.output, "null");
            },
            Expr::Var(_, name, _) => {
                let t = js_identifier(pools, name);
                push_chars(&mut self.output, &t);
            },
            Expr::GlobalVar(_, name, _) => {
                let t = js_identifier(pools, name);
                push_chars(&mut self.output, &t);
            },
            Expr::Lambda(body_id, param_name, _) => {
                let param_text = pools.name_chars(param_name);
                if chars_eq_str(&param_text, "()") {
                    push_str(&mut self.output, "(() => ");
                    let _ = self.transpile_expression(body_id, pools);
                    push_str(&mut self.output, ")");
                } else {
                    push_str(&mut self.output, "((");
                    let t = js_identifier(pools, param_name);
                    push_chars(&mut self.output, &t);
                    push_str(&mut self.output, ") => ");
                    let _ = self.transpile_expression(body_id, pools);
                    push_str(&mut self.output, ")");
                }
                assert(self.output@ =~= o + js_text(p, e));
            },
            Expr::Call(func_id, arg_id, _) => {
                let unit_arg = match pools.get_expr(arg_id) {
                    Expr::Unit(_) => true,
                    _ => false,
                };
                if unit_arg {
                    let _ = self.transpile_expression(func_id, pools);
                    push_str(&mut self.output, "()");
                } else {
                    push_str(&mut self.output, "(");
                    let _ = self.transpile_expression(func_id, pools);
                    push_str(&mut self.output, ")(");
                    let _ = self.transpile_expression(arg_id, pools);
                    push_str(&mut self.output, ")");
                }
                assert(self.output@ =~= o + js_text(p, e));
            },
            Expr::Let(value_id, body_id, var_name, _) => {
                push_str(&mut self.output, "((");
                let t = js_identifier(pools, var_name);
                push_chars(&mut self.output, &t);
                push_str(&mut self.output, " => ");
                let _ = self.transpile_expression(body_id, pools);
                push_str(&mut self.output, ")(");
                let _ = self.transpile_expression(value_id, pools);
                push_str(&mut self.output, "))");
                assert(self.output@ =~= o + js_text(p, e));
            },
            Expr::Construct(constructor_name, arg_id, _) => {
                let unit_arg = match pools.get_expr(arg_id) {
                    Expr::Unit(_) => true,
                    _ => false,
                };
                let t = js_identifier(pools, constructor_name);
                push_chars(&mut self.output, &t);
                if !unit_arg {
                    push_str(&mut self.output, "(");
                    let _ = self.transpile_expression(arg_id, pools);
                    push_str(&mut self.output, ")");
                }
                assert(self.output@ =~= o + js_text(p, e));
            },
            Expr::Match(scrutinee, match_arms, _) => {
                push_str(&mut self.output, "wandMatch(");
                let _ = self.transpile_expression(scrutinee, pools);
                push_str(&mut self.output, ", [");
                self.transpile_arms(pools, expr_id, match_arms, 0);
                push_str(&mut self.output, "])");
                assert(self.output@ =~= o + js_text(p, e));
            },
            Expr::Record(start, len, _) => {
                push_str(&mut self.output, "wandRecord({");
                self.transpile_fields(pools, expr_id, start.0, len, 0, false);
                push_str(&mut self.output, "})");
                assert(self.output@ =~= o + js_text(p, e));
            },
            Expr::Project(record_id, field_name, _) => {
                push_str(&mut self.output, "(");
                let _ = self.transpile_expression(record_id, pools);
                push_str(&mut self.output, ".value['");
                let t = pools.name_chars(field_name);
                push_chars(&mut self.output, &t);
                push_str(&mut self.output, "'])");
                assert(self.output@ =~= o + js_text(p, e));
            },
            Expr::Extend(record_id, start, len, _) => {
                push_str(&mut self.output, "wandRecord({...");
                let _ = self.transpile_expression(record_id, pools);
                push_str(&mut self.output, ".value");
                self.transpile_fields(pools, expr_id, start.0, len, 0, true);
                push_str(&mut self.output, "})");
                assert(self.output@ =~= o + js_text(p, e));
            },
            Expr::Ffi(js_code, _, arg_expr, _) => {
                push_str(&mut self.output, "(");
                let t = pools.name_chars(js_code);
                push_chars(&mut self.output, &t);
                match arg_expr {
                    Some(arg_id) => {
                        push_str(&mut self.output, ")(");
                        let _ = self.transpile_expression(arg_id, pools);
                        push_str(&mut self.output, ")");
                    },
                    None => {
                        push_str(&mut self.output, ")");
                    },
                }
                assert(self.output@ =~= o + js_text(p, e));
            },
        }
        Ok(())
    }

    /// Appends the fields `i..len` of the run at `start` (`fields_js`).
    fn transpile_fields(&mut self, pools: &Pools, parent: ExprId, start: usize, len: usize, i: usize, lead: bool)
        requires
            pools.wf(),
            pools.valid_expr(parent),
            pools.fields_below(start as int, len as int, parent.0 as int),
        ensures
            final(self).output@ == old(self).output@ + fields_js(
                *pools,
                parent.0 as int,
                start as int,
                len as int,
                i as int,
                lead,
            ),
            final(self).diagnostics == old(self).diagnostics,
        decreases parent.0, 0nat, len - i,
    {
        let ghost o = self.output@;
        if i >= len {
            assert(self.output@ =~= o + fields_js(*pools, parent.0 as int, start as int, len as int, i as int, lead));
            return ;
        }
        assert(pools.record_fields@.len() == pools.record_fields.len());
        let field = pools.record_fields[start + i];
        if lead || i > 0 {
            push_str(&mut self.output, ", ");
        }
        push_str(&mut self.output, "'");
        let t = pools.name_chars(field.name);
        push_chars(&mut self.output, &t);
        push_str(&mut self.output, "': ");
        let _ = self.transpile_expression(field.expr, pools);
        self.transpile_fields(pools, parent, start, len, i + 1, lead);
        assert(self.output@ =~= o + fields_js(*pools, parent.0 as int, start as int, len as int, i as int, lead));
    }

    /// Appends case `i` of a match (`arm_js`).
    fn transpile_arm(&mut self, pools: &Pools, parent: ExprId, case: MatchCase, i: usize)
        requires
            pools.wf(),
            pools.valid_expr(parent),
            case.body.0 < parent.0,
        ensures
            final(self).output@ == old(self).output@ + arm_js(*pools, parent.0 as int, case, i as int),
            final(self).diagnostics == old(self).diagnostics,
        decreases parent.0, 0nat, 0nat,
    {
        let ghost o = self.output@;
        let ghost p = *pools;
        let ghost pat = pattern_js(p, case.pattern, 0, pattern_fuel(p));
        let mut head: Vec<char> = Vec::new();
        if i > 0 {
            push_str(&mut head, ", ");
        }
        push_str(&mut head, "[");
        push_chars(&mut self.output, &head);
        let ghost o1 = self.output@;
        let mut pattern_vars: Vec<Vec<char>> = Vec::new();
        self.transpile_pattern_with_vars(case.pattern, pools, &mut pattern_vars);
        assert(pattern_vars@.map_values(|v: Vec<char>| v@) =~= pat.1);
        let mut mid = str_to_chars(", ");
        push_str(&mut mid, "(");
        push_comma_list(&mut mid, &pattern_vars);
        push_str(&mut mid, ") => ");
        push_chars(&mut self.output, &mid);
        let _ = self.transpile_expression(case.body, pools);
        push_str(&mut self.output, "]");
        assert(self.output@ =~= o + arm_js(p, parent.0 as int, case, i as int));
    }

    /// Appends the cases `i..` of a match (`arms_js`).
    fn transpile_arms(&mut self, pools: &Pools, parent: ExprId, arms: MatchArms, i: usize)
        requires
            pools.wf(),
            pools.valid_expr(parent),
            pools.arms_below(arms, parent.0 as int),
        ensures
            final(self).output@ == old(self).output@ + arms_js(*pools, parent.0 as int, arms, i as int),
            final(self).diagnostics == old(self).diagnostics,
        decreases parent.0, 1nat, arms.length - i,
    {
        let ghost o = self.output@;
        let ghost p = *pools;
        if i >= arms.length {
            assert(self.output@ =~= o + arms_js(p, parent.0 as int, arms, i as int));
            return ;
        }
        assert(pools.patterns@.len() == pools.patterns.len());
        let case = pools.get_pattern_case(PatternId(arms.start_id.0 + i));
        assert(case == pools.patterns@[arms.start_id.0 + i]);
        self.transpile_arm(pools, parent, case, i);
        self.transpile_arms(pools, parent, arms, i + 1);
        assert(self.output@ =~= o + arms_js(p, parent.0 as int, arms, i as int));
    }

    /// Appends a pattern as the object the runtime matches against, adding the
    /// names of the variables it binds to `vars`.
    fn transpile_pattern_with_vars(&mut self, pattern: Pattern, pools: &Pools, vars: &mut Vec<Vec<char>>)
        requires
            pools.wf(),
        ensures
            final(self).output@ == old(self).output@ + pattern_js(
                *pools,
                pattern,
                old(vars)@.len(),
                pattern_fuel(*pools),
            ).0,
            final(vars)@.map_values(|v: Vec<char>| v@) == old(vars)@.map_values(|v: Vec<char>| v@) + pattern_js(
                *pools,
                pattern,
                old(vars)@.len(),
                pattern_fuel(*pools),
            ).1,
            final(self).diagnostics == old(self).diagnostics,
    {
        assert(pools.nested_patterns@.len() == pools.nested_patterns.len());
        self.pattern_fuel(pattern, pools, vars, pools.nested_patterns.len());
    }

    fn pattern_fuel(&mut self, pattern: Pattern, pools: &Pools, vars: &mut Vec<Vec<char>>, fuel: usize)
        requires
            pools.wf(),
        ensures
            final(self).output@ == old(self).output@ + pattern_js(*pools, pattern, old(vars)@.len(), fuel as nat).0,
            final(vars)@.map_values(|v: Vec<char>| v@) == old(vars)@.map_values(|v: Vec<char>| v@) + pattern_js(
                *pools,
                pattern,
                old(vars)@.len(),
                fuel as nat,
            ).1,
            final(vars)@.len() == old(vars)@.len() + pattern_js(*pools, pattern, old(vars)@.len(), fuel as nat).1.len(),
            final(self).diagnostics == old(self).diagnostics,
        decreases fuel, 0nat, 0nat,
    {
        let ghost o = self.output@;
        let ghost ov = vars@.map_values(|v: Vec<char>| v@);
        let ghost p = *pools;
        let ghost res = pattern_js(p, pattern, vars@.len(), fuel as nat);
        match pattern {
            Pattern::Wildcard(_) => {
                push_str(&mut self.output, "{ type: 'wildcard' }");
                assert(vars@.map_values(|v: Vec<char>| v@) =~= ov + res.1);
            },
            Pattern::Variable(_, var_name, _) => {
                let text = pools.name_chars(var_name);
                let js_var_name = if chars_eq_str(&text, "_") {
                    let mut w = str_to_chars("_wildcard");
                    push_usize(&mut w, vars.len());
                    w
                } else {
                    js_identifier(pools, var_name)
                };
                push_str(&mut self.output, "{ type: 'variable', name: '");
                push_chars(&mut self.output, &js_var_name);
                push_str(&mut self.output, "' }");
                let ghost v = js_var_name@;
                vars.push(js_var_name);
                assert(self.output@ =~= o + res.0);
                assert(vars@.map_values(|v: Vec<char>| v@) =~= ov + res.1);
            },
            Pattern::Int(n, _) => {
                push_str(&mut self.output, "{ type: 'int', value: ");
                push_isize(&mut self.output, n);
                push_str(&mut self.output, " }");
                assert(self.output@ =~= o + res.0);
                assert(vars@.map_values(|v: Vec<char>| v@) =~= ov + res.1);
            },
            Pattern::String(st, _) => {
                push_str(&mut self.output, "{ type: 'string', value: \"");
                let t = pools.name_chars(st);
                push_chars(&mut self.output, &t);
                push_str(&mut self.output, "\" }");
                assert(self.output@ =~= o + res.0);
                assert(vars@.map_values(|v: Vec<char>| v@) =~= ov + res.1);
            },
            Pattern::Constructor(name, start_id, length, _) => {
                push_str(&mut self.output, "{ type: 'constructor', name: '");
                let t = pools.name_chars(name);
                push_chars(&mut self.output, &t);
                push_str(&mut self.output, "', patterns: [");
                if fuel > 0 && length > 0 {
                    self.nested_fuel(pools, start_id.0, length, 0, vars, fuel - 1);
                } else {
                    assert(vars@.map_values(|v: Vec<char>| v@) =~= ov + Seq::<Seq<char>>::empty());
                }
                push_str(&mut self.output, "] }");
                assert(self.output@ =~= o + res.0);
            },
            Pattern::Record(..) => {
                push_str(&mut self.output, "{ type: 'record' }");
                assert(vars@.map_values(|v: Vec<char>| v@) =~= ov + res.1);
            },
        }
    }

    fn nested_fuel(&mut self, pools: &Pools, start: usize, len: usize, i: usize, vars: &mut Vec<Vec<char>>, fuel: usize)
        requires
            pools.wf(),
        ensures
            final(self).output@ == old(self).output@ + nested_js(
                *pools,
                start as int,
                len as int,
                i as int,
                old(vars)@.len(),
                fuel as nat,
            ).0,
            final(vars)@.map_values(|v: Vec<char>| v@) == old(vars)@.map_values(|v: Vec<char>| v@) + nested_js(
                *pools,
                start as int,
                len as int,
                i as int,
                old(vars)@.len(),
                fuel as nat,
            ).1,
            final(vars)@.len() == old(vars)@.len() + nested_js(
                *pools,
                start as int,
                len as int,
                i as int,
                old(vars)@.len(),
                fuel as nat,
            ).1.len(),
            final(self).diagnostics == old(self).diagnostics,
        decreases fuel, 1nat, len - i,
    {
        let ghost o = self.output@;
        let ghost ov = vars@.map_values(|v: Vec<char>| v@);
        let ghost p = *pools;
        let ghost n0 = vars@.len();
        assert(pools.nested_patterns@.len() == pools.nested_patterns.len());
        if i >= len || start > pools.nested_patterns.len() || len > pools.nested_patterns.len() - start {
            assert(self.output@ =~= o + nested_js(p, start as int, len as int, i as int, n0, fuel as nat).0);
            assert(vars@.map_values(|v: Vec<char>| v@) =~= ov + nested_js(p, start as int, len as int, i as int, n0, fuel as nat).1);
            return ;
        }
        if i > 0 {
            push_str(&mut self.output, ", ");
        }
        let nested = pools.nested_patterns[start + i];
        self.pattern_fuel(nested, pools, vars, fuel);
        let ghost n1 = vars@.len();
        let ghost v1 = vars@.map_values(|v: Vec<char>| v@);
        self.nested_fuel(pools, start, len, i + 1, vars, fuel);
        proof {
            let here = pattern_js(p, p.nested_patterns@[start + i], n0, fuel as nat);
            assert(n1 == n0 + here.1.len());
            assert(vars@.map_values(|v: Vec<char>| v@) =~= ov + nested_js(p, start as int, len as int, i as int, n0, fuel as nat).1);
        }
        assert(self.output@ =~= o + nested_js(p, start as int, len as int, i as int, n0, fuel as nat).0);
    }
}

/// The number of arrows along the result positions of type `t`.
fn count_arrows(pools: &Pools, t: TypeId) -> (r: usize)
    requires
        pools.wf(),
        pools.valid_type(t),
    ensures
        r as nat == arrow_count(*pools, t.0 as int),
        r <= t.0,
    decreases t.0,
{
    assert(pools.type_node_ok(pools.types@[t.0 as int], t.0 as int));
    match pools.get_type(t) {
        Type::Arrow(_, next_type, _) => 1 + count_arrows(pools, next_type),
        _ => 0,
    }
}

/// Whether `a` is how `b` begins.
pub open spec fn prefix_text(a: Seq<char>, b: Seq<char>) -> bool {
    a.len() <= b.len() && b.subrange(0, a.len() as int) == a
}

/// Appends the names separated by `, ` (`comma_list`).
fn push_comma_list(out: &mut Vec<char>, names: &Vec<Vec<char>>)
    ensures
        final(out)@ == old(out)@ + comma_list(names@.map_values(|v: Vec<char>| v@)),
{
    let ghost o = out@;
    let ghost all = names@.map_values(|v: Vec<char>| v@);
    let mut i: usize = 0;
    while i < names.len()
        invariant
            i <= names@.len(),
            all == names@.map_values(|v: Vec<char>| v@),
            out@ == o + comma_list(all.subrange(0, i as int)),
        decreases names.len() - i,
    {
        if i > 0 {
            push_str(out, ", ");
        }
        push_chars(out, &names[i]);
        proof {
            let next = all.subrange(0, i + 1);
            assert(next.drop_last() =~= all.subrange(0, i as int));
            assert(next.last() == names@[i as int]@);
            assert(out@ =~= o + comma_list(next));
        }
        i = i + 1;
    }
    assert(all.subrange(0, names@.len() as int) =~= all);
}

/// Appends `SpanId(n)`.
fn push_span_debug(out: &mut Vec<char>, s: SpanId)
    ensures
        final(out)@ == old(out)@ + span_debug(s),
{
    let ghost o = out@;
    push_str(out, "SpanId(");
    push_usize(out, s.0);
    push_str(out, ")");
    assert(out@ =~= o + span_debug(s));
}

/// Appends `TypeId(n)`.
fn push_type_id_debug(out: &mut Vec<char>, t: TypeId)
    ensures
        final(out)@ == old(out)@ + type_id_debug(t),
{
    let ghost o = out@;
    push_str(out, "TypeId(");
    push_usize(out, t.0);
    push_str(out, ")");
    assert(out@ =~= o + type_id_debug(t));
}

/// Appends `InternedString(n)`.
fn push_name_debug(out: &mut Vec<char>, n: InternedString)
    ensures
        final(out)@ == old(out)@ + name_debug(n),
{
    let ghost o = out@;
    push_str(out, "InternedString(");
    push_usize(out, n.0 as usize);
    push_str(out, ")");
    assert(out@ =~= o + name_debug(n));
}

/// Appends `TypeVarId(n, name)`.
fn push_var_debug(out: &mut Vec<char>, v: TypeVarId)
    ensures
        final(out)@ == old(out)@ + var_debug(v),
{
    let ghost o = out@;
    push_str(out, "TypeVarId(");
    push_usize(out, v.0);
    push_str(out, ", ");
    let ghost mid = out@;
    match v.1 {
        Some(n) => {
            push_str(out, "Some(");
            push_name_debug(out, n);
            push_str(out, ")");
        },
        None => {
            push_str(out, "None");
        },
    }
    push_str(out, ")");
    assert(out@ =~= o + var_debug(v));
}

/// Appends a type node as `{:?}` shows it (`type_debug`).
#[verifier::rlimit(50)]
fn push_type_debug(out: &mut Vec<char>, pools: &Pools, t: Type)
    ensures
        final(out)@ == old(out)@ + type_debug(*pools, t),
{
    let ghost o = out@;
    match t {
        Type::Int(s) => {
            push_str(out, "Int(");
            push_span_debug(out, s);
            push_str(out, ")");
        },
        Type::String(s) => {
            push_str(out, "String(");
            push_span_debug(out, s);
            push_str(out, ")");
        },
        Type::Unit(s) => {
            push_str(out, "Unit(");
            push_span_debug(out, s);
            push_str(out, ")");
        },
        Type::Var(v, s) => {
            push_str(out, "Var(");
            push_var_debug(out, v);
            push_str(out, ", ");
            push_span_debug(out, s);
            push_str(out, ")");
        },
        Type::Arrow(a, b, s) => {
            push_str(out, "Arrow(");
            push_type_id_debug(out, a);
            push_str(out, ", ");
            push_type_id_debug(out, b);
            push_str(out, ", ");
            push_span_debug(out, s);
            push_str(out, ")");
        },
        Type::DataType(n, start, len, s) => {
            push_str(out, "DataType(");
            push_name_debug(out, n);
            push_str(out, ", ");
            push_type_id_debug(out, start);
            push_str(out, ", ");
            push_usize(out, len);
            push_str(out, ", ");
            push_span_debug(out, s);
            push_str(out, ")");
        },
        Type::TypeApp(v, start, len, s) => {
            push_str(out, "TypeApp(");
            push_var_debug(out, v);
            push_str(out, ", ");
            push_type_id_debug(out, start);
            push_str(out, ", ");
            push_usize(out, len);
            push_str(out, ", ");
            push_span_debug(out, s);
            push_str(out, ")");
        },
        Type::EmptyRow(s) => {
            push_str(out, "EmptyRow(");
            push_span_debug(out, s);
            push_str(out, ")");
        },
        Type::Row(start, len, rest, s) => {
            push_str(out, "Row(FieldId(");
            push_usize(out, start.0);
            push_str(out, "), ");
            push_usize(out, len);
            push_str(out, ", ");
            push_type_id_debug(out, rest);
            push_str(out, ", ");
            push_span_debug(out, s);
            push_str(out, ")");
        },
    }
    assert(out@ =~= o + type_debug(*pools, t));
}

/// The handle of `main`, when that name has been interned.
fn main_name(pools: &Pools) -> (r: Option<InternedString>)
    requires
        pools.wf(),
    ensures
        r matches Some(n) ==> (n.0 as int) < pools.interner.strings.len() && pools.interner.text_of(n) == "main"@,
        r is None ==> forall|i: int| 0 <= i < pools.interner.strings.len() ==> pools.interner.strings@[i]@ != "main"@,
{
    let text = str_to_chars("main");
    match pools.interner.lookup(&text) {
        Some(n) => Some(n),
        None => None,
    }
}

/// `name` is the handle of the text `main`.
pub open spec fn is_main_name(p: Pools, name: InternedString) -> bool {
    (name.0 as int) < p.interner.strings.len() && p.interner.text_of(name) == "main"@
}

proof fn lemma_main_name(p: Pools, main: Option<InternedString>, name: InternedString)
    requires
        p.interner.wf(),
        main matches Some(n) ==> (n.0 as int) < p.interner.strings.len() && p.interner.text_of(n) == "main"@,
        main is None ==> forall|i: int| 0 <= i < p.interner.strings.len() ==> p.interner.strings@[i]@ != "main"@,
    ensures
        (match main {
            Some(m) => m == name,
            None => false,
        }) == is_main_name(p, name),
{
    match main {
        Some(m) => {
            if is_main_name(p, name) && m != name {
                assert(m.0 != name.0);
                if m.0 < name.0 {
                    assert(p.interner.strings@[m.0 as int]@ != p.interner.strings@[name.0 as int]@);
                } else {
                    assert(p.interner.strings@[name.0 as int]@ != p.interner.strings@[m.0 as int]@);
                }
            }
        },
        None => {
            if is_main_name(p, name) {
                assert(p.interner.strings@[name.0 as int]@ != "main"@);
            }
        },
    }
}

/// `name: scheme` for a function that has a scheme.
pub open spec fn scheme_info(p: Pools, name: InternedString) -> Option<Seq<char>> {
    match assoc_get(p.globals@, name) {
        Some(sc) => Some(p.interner.text_of(name) + ": "@ + scheme_text(&p, sc)),
        None => None,
    }
}

/// The definition of function `name` with body `body`: a comment with its scheme, if it
/// has one, then a `const`; a body that is not a lambda is wrapped in one.
pub open spec fn function_js(p: Pools, name: InternedString, body: ExprId) -> Seq<char> {
    (match scheme_info(p, name) {
        Some(info) => "// "@ + info + "\n"@,
        None => Seq::empty(),
    }) + "const "@ + js_ident(p.interner.text_of(name)) + " = "@ + (if p.exprs@[body.0 as int] is Lambda {
        Seq::empty()
    } else {
        "() => "@
    }) + js_text(p, body.0 as int) + ";\n"@
}

/// The definitions of those of the first `n` functions that are `main` (or are not).
pub open spec fn function_defs(p: Pools, main_pass: bool, n: int) -> Seq<char>
    decreases n,
{
    if n <= 0 {
        Seq::empty()
    } else {
        let f = p.function_implementations@[n - 1];
        function_defs(p, main_pass, n - 1) + if is_main_name(p, f.0) == main_pass {
            function_js(p, f.0, f.1)
        } else {
            Seq::empty()
        }
    }
}

/// The scheme lines reported for those of the first `n` functions that are `main` (or are not).
pub open spec fn function_infos(p: Pools, main_pass: bool, n: int) -> Seq<Seq<char>>
    decreases n,
{
    if n <= 0 {
        Seq::empty()
    } else {
        let f = p.function_implementations@[n - 1];
        function_infos(p, main_pass, n - 1) + if is_main_name(p, f.0) == main_pass {
            match scheme_info(p, f.0) {
                Some(info) => seq![info],
                None => Seq::empty(),
            }
        } else {
            Seq::empty()
        }
    }
}

/// The section defining every function, `main` last.
pub open spec fn functions_js(p: Pools) -> Seq<char> {
    let n = p.function_implementations@.len() as int;
    "// Top-level functions\n"@ + function_defs(p, false, n) + function_defs(p, true, n) + "\n"@
}

/// Indentation by `depth` levels of two spaces.
pub open spec fn indent(depth: nat) -> Seq<char>
    decreases depth,
{
    if depth == 0 {
        Seq::empty()
    } else {
        indent((depth - 1) as nat) + "  "@
    }
}

/// The last type recorded for expression `id` among the first `n` entries.
pub open spec fn last_type_for(et: Seq<(ExprId, TypeId)>, id: ExprId, n: int) -> Option<TypeId>
    decreases n,
{
    if n <= 0 {
        None
    } else if et[n - 1].0 == id {
        Some(et[n - 1].1)
    } else {
        last_type_for(et, id, n - 1)
    }
}

/// Text and reported lines, side by side.
pub open spec fn join2(a: (Seq<char>, Seq<Seq<char>>), b: (Seq<char>, Seq<Seq<char>>)) -> (Seq<char>, Seq<Seq<char>>) {
    (a.0 + b.0, a.1 + b.1)
}

/// The comment on expression `e` with the last type recorded for it, indented by
/// `depth`, and the line reported for it; nothing when no type is recorded.
pub open spec fn own_comment(p: Pools, et: Seq<(ExprId, TypeId)>, e: int, depth: nat) -> (Seq<char>, Seq<Seq<char>>) {
    match last_type_for(et, ExprId(e as usize), et.len() as int) {
        Some(t) => {
            let info = indent(depth) + expr_text(p, e) + ": "@ + type_text(&p, t.0 as int, Seq::empty(), 0).0;
            (indent(depth) + "// "@ + info + " ~ "@ + type_debug(p, p.types@[t.0 as int]) + "\n"@, seq![info])
        },
        None => (Seq::empty(), Seq::empty()),
    }
}

/// The comments on `e` and on each expression inside it, in order, each level one
/// deeper; with the lines reported.
pub open spec fn type_comments(p: Pools, et: Seq<(ExprId, TypeId)>, e: int, depth: nat) -> (Seq<char>, Seq<Seq<char>>)
    decreases e, 2int, 0int,
{
    if e < 0 || e >= p.exprs@.len() {
        (Seq::empty(), Seq::empty())
    } else {
        join2(own_comment(p, et, e, depth), sub_comments(p, et, e, depth + 1))
    }
}

/// The comments on the subexpressions of `e`, at depth `d`.
pub open spec fn sub_comments(p: Pools, et: Seq<(ExprId, TypeId)>, e: int, d: nat) -> (Seq<char>, Seq<Seq<char>>)
    decreases e, 1int, 0int,
{
    if e < 0 || e >= p.exprs@.len() {
        (Seq::empty(), Seq::empty())
    } else {
        match p.exprs@[e] {
            Expr::Lambda(b, _, _) => child_comments(p, et, e, b, d),
            Expr::Call(f, a, _) => join2(child_comments(p, et, e, f, d), child_comments(p, et, e, a, d)),
            Expr::Let(v, b, _, _) => join2(child_comments(p, et, e, v, d), child_comments(p, et, e, b, d)),
            Expr::Construct(_, a, _) => child_comments(p, et, e, a, d),
            Expr::Match(x, arms, _) => join2(
                child_comments(p, et, e, x, d),
                arms_comments(p, et, e, arms.start_id.0 as int, arms.length as int, 0, d),
            ),
            Expr::Record(start, len, _) => fields_comments(p, et, e, start.0 as int, len as int, 0, d),
            Expr::Project(r, _, _) => child_comments(p, et, e, r, d),
            Expr::Extend(r, start, len, _) => join2(
                child_comments(p, et, e, r, d),
                fields_comments(p, et, e, start.0 as int, len as int, 0, d),
            ),
            Expr::Ffi(_, _, Some(a), _) => child_comments(p, et, e, a, d),
            _ => (Seq::empty(), Seq::empty()),
        }
    }
}

/// The comments on `child`, a subexpression of `parent`.
pub open spec fn child_comments(p: Pools, et: Seq<(ExprId, TypeId)>, parent: int, child: ExprId, depth: nat) -> (Seq<char>, Seq<Seq<char>>)
    decreases parent, 0int, 0int,
{
    if 0 <= child.0 < parent {
        type_comments(p, et, child.0 as int, depth)
    } else {
        (Seq::empty(), Seq::empty())
    }
}

/// The comments on the bodies of the match arms `i..len` of the run at `start`.
pub open spec fn arms_comments(p: Pools, et: Seq<(ExprId, TypeId)>, parent: int, start: int, len: int, i: int, depth: nat) -> (Seq<char>, Seq<Seq<char>>)
    decreases parent, 0int, len - i,
{
    if i >= len || i < 0 || start < 0 || start + len > p.patterns@.len() {
        (Seq::empty(), Seq::empty())
    } else {
        let b = p.patterns@[start + i].body;
        join2(
            if 0 <= b.0 < parent {
                type_comments(p, et, b.0 as int, depth)
            } else {
                (Seq::empty(), Seq::empty())
            },
            arms_comments(p, et, parent, start, len, i + 1, depth),
        )
    }
}

/// The comments on the record fields `i..len` of the run at `start`.
pub open spec fn fields_comments(p: Pools, et: Seq<(ExprId, TypeId)>, parent: int, start: int, len: int, i: int, depth: nat) -> (Seq<char>, Seq<Seq<char>>)
    decreases parent, 0int, len - i,
{
    if i >= len || i < 0 || start < 0 || start + len > p.record_fields@.len() {
        (Seq::empty(), Seq::empty())
    } else {
        let f = p.record_fields@[start + i].expr;
        join2(
            if 0 <= f.0 < parent {
                type_comments(p, et, f.0 as int, depth)
            } else {
                (Seq::empty(), Seq::empty())
            },
            fields_comments(p, et, parent, start, len, i + 1, depth),
        )
    }
}

/// For the first `n` functions, a heading and the comments on the types of the
/// expressions of its body; with the lines reported.
pub open spec fn types_listing(p: Pools, et: Seq<(ExprId, TypeId)>, n: int) -> (Seq<char>, Seq<Seq<char>>)
    decreases n,
{
    if n <= 0 {
        (Seq::empty(), Seq::empty())
    } else {
        let f = p.function_implementations@[n - 1];
        let c = type_comments(p, et, f.1.0 as int, 0);
        join2(types_listing(p, et, n - 1), ("// "@ + p.interner.text_of(f.0) + " function expression types:\n"@ + c.0, c.1))
    }
}

/// The call of `main` that ends a translated program.
pub open spec fn main_call() -> Seq<char> {
    "// Execute main function\n"@ + "const result = main();\n"@ + "console.log('Result:', result);\n"@
}

impl JavaScriptTranspiler {
    /// Appends [`functions_js`]: one `const` per top-level function, `main` last, each
    /// preceded by a comment with the function's scheme, which is also reported.
    fn transpile_functions(&mut self, pools: &Pools) -> (r: Result<(), String>)
        requires
            pools.wf(),
        ensures
            r is Ok,
            final(self).output@ == old(self).output@ + functions_js(*pools),
            final(self).diagnostics_view() == old(self).diagnostics_view() + function_infos(
                *pools,
                false,
                pools.function_implementations@.len() as int,
            ) + function_infos(*pools, true, pools.function_implementations@.len() as int),
    {
        let ghost o = self.output@;
        let ghost d0 = self.diagnostics_view();
        let ghost n = pools.function_implementations@.len() as int;
        push_str(&mut self.output, "// Top-level functions\n");
        let main = main_name(pools);
        let ghost h = self.output@;
        let mut pass: usize = 0;
        while pass < 2
            invariant
                pools.wf(),
                pass <= 2,
                n == pools.function_implementations@.len(),
                main matches Some(m) ==> (m.0 as int) < pools.interner.strings.len() && pools.interner.text_of(m) == "main"@,
                main is None ==> forall|i: int| 0 <= i < pools.interner.strings.len() ==> pools.interner.strings@[i]@ != "main"@,
                self.output@ == h + (if pass >= 1 {
                    function_defs(*pools, false, n)
                } else {
                    Seq::empty()
                }) + (if pass >= 2 {
                    function_defs(*pools, true, n)
                } else {
                    Seq::empty()
                }),
                self.diagnostics_view() == d0 + (if pass >= 1 {
                    function_infos(*pools, false, n)
                } else {
                    Seq::empty()
                }) + (if pass >= 2 {
                    function_infos(*pools, true, n)
                } else {
                    Seq::empty()
                }),
            decreases 2 - pass,
        {
            let ghost main_pass = pass == 1;
            let ghost h2 = self.output@;
            let ghost d2 = self.diagnostics_view();
            let mut i: usize = 0;
            while i < pools.function_implementations.len()
                invariant
                    pools.wf(),
                    i <= pools.function_implementations@.len(),
                    n == pools.function_implementations@.len(),
                    pass < 2,
                    main_pass == (pass == 1),
                    main matches Some(m) ==> (m.0 as int) < pools.interner.strings.len() && pools.interner.text_of(m) == "main"@,
                    main is None ==> forall|i: int| 0 <= i < pools.interner.strings.len() ==> pools.interner.strings@[i]@ != "main"@,
                    self.output@ == h2 + function_defs(*pools, main_pass, i as int),
                    self.diagnostics_view() == d2 + function_infos(*pools, main_pass, i as int),
                decreases pools.function_implementations@.len() - i,
            {
                let (function_name, impl_id) = pools.function_implementations[i];
                let is_main = match main {
                    Some(m) => m == function_name,
                    None => false,
                };
                proof {
                    assert(pools.interner.wf());
                    lemma_main_name(*pools, main, function_name);
                }
                let ghost before = self.output@;
                let ghost dbefore = self.diagnostics_view();
                proof {
                    assert(pools.tables_wf());
                    assert(pools.function_implementations@[i as int].1.0 < pools.exprs@.len());
                    assert(function_name == pools.function_implementations@[i as int].0);
                    assert(impl_id == pools.function_implementations@[i as int].1);
                }
                if (pass == 0) != is_main {
                    self.transpile_function(pools, function_name, impl_id);
                    proof {
                        assert(is_main_name(*pools, function_name) == main_pass);
                        assert(function_defs(*pools, main_pass, i + 1) == function_defs(*pools, main_pass, i as int) + function_js(*pools, function_name, impl_id));
                        assert(function_infos(*pools, main_pass, i + 1) == function_infos(*pools, main_pass, i as int) + match scheme_info(*pools, function_name) {
                            Some(info) => seq![info],
                            None => Seq::empty(),
                        });
                        assert(self.output@ =~= h2 + function_defs(*pools, main_pass, i + 1));
                        assert(self.diagnostics_view() =~= d2 + function_infos(*pools, main_pass, i + 1));
                    }
                } else {
                    proof {
                        assert(is_main_name(*pools, function_name) != main_pass);
                        assert(function_defs(*pools, main_pass, i + 1) == function_defs(*pools, main_pass, i as int) + Seq::<char>::empty());
                        assert(function_infos(*pools, main_pass, i + 1) == function_infos(*pools, main_pass, i as int) + Seq::<Seq<char>>::empty());
                        assert(self.output@ =~= h2 + function_defs(*pools, main_pass, i + 1));
                        assert(self.diagnostics_view() =~= d2 + function_infos(*pools, main_pass, i + 1));
                    }
                }
                i = i + 1;
            }
            proof {
                if pass == 0 {
                    assert(self.output@ =~= h + function_defs(*pools, false, n) + Seq::<char>::empty());
                    assert(self.diagnostics_view() =~= d0 + function_infos(*pools, false, n) + Seq::<Seq<char>>::empty());
                } else {
                    assert(self.output@ =~= h + function_defs(*pools, false, n) + function_defs(*pools, true, n));
                    assert(self.diagnostics_view() =~= d0 + function_infos(*pools, false, n) + function_infos(*pools, true, n));
                }
            }
            pass = pass + 1;
        }
        push_str(&mut self.output, "\n");
        proof {
            assert(self.output@ =~= o + functions_js(*pools));
        }
        Ok(())
    }

    /// Appends [`function_js`] for function `name` and reports its scheme line.
    fn transpile_function(&mut self, pools: &Pools, function_name: InternedString, impl_id: ExprId)
        requires
            pools.wf(),
            pools.valid_expr(impl_id),
        ensures
            final(self).output@ == old(self).output@ + function_js(*pools, function_name, impl_id),
            final(self).diagnostics_view() == old(self).diagnostics_view() + match scheme_info(*pools, function_name) {
                Some(info) => seq![info],
                None => Seq::empty(),
            },
    {
        let ghost before = self.output@;
        let ghost dbefore = self.diagnostics_view();
        let mut text: Vec<char> = Vec::new();
        match pools.get_global_scheme(&function_name) {
            Some(type_scheme) => {
                let mut type_info = pools.name_chars(function_name);
                push_str(&mut type_info, ": ");
                let t = type_scheme.display_chars(pools);
                push_chars(&mut type_info, &t);
                push_str(&mut text, "// ");
                push_chars(&mut text, &type_info);
                push_str(&mut text, "\n");
                proof {
                    crate::pools::lemma_assoc_index(pools.globals@, function_name);
                    let g = assoc_get(pools.globals@, function_name).unwrap();
                    assert(scheme_text(pools, type_scheme) == scheme_text(pools, g));
                    assert(scheme_info(*pools, function_name) == Some(type_info@));
                }
                let ghost dv = self.diagnostics_view();
                self.diagnostics.push(type_info);
                proof {
                    assert(self.diagnostics_view() =~= dv.push(type_info@));
                }
            },
            None => {
                proof {
                    crate::pools::lemma_assoc_index(pools.globals@, function_name);
                    assert(self.diagnostics_view() =~= dbefore + Seq::<Seq<char>>::empty());
                }
            },
        }
        push_str(&mut text, "const ");
        let t = js_identifier(pools, function_name);
        push_chars(&mut text, &t);
        push_str(&mut text, " = ");
        match pools.get_expr(impl_id) {
            Expr::Lambda(..) => {},
            _ => {
                push_str(&mut text, "() => ");
            },
        }
        push_chars(&mut self.output, &text);
        let _ = self.transpile_expression(impl_id, pools);
        push_str(&mut self.output, ";\n");
        proof {
            assert(self.output@ =~= before + function_js(*pools, function_name, impl_id));
        }
    }

    /// Appends [`type_comments`] for `expr_id` at `depth` and reports its lines.
    fn print_expression_types_recursive(
        &mut self,
        expr_id: ExprId,
        pools: &Pools,
        typing_ctx: &PooledTypingContext,
        depth: usize,
    )
        requires
            pools.wf(),
            pools.valid_expr(expr_id),
            typing_ctx.wf_in(pools),
            depth + expr_id.0 < usize::MAX,
        ensures
            final(self).output@ == old(self).output@ + type_comments(*pools, typing_ctx.expr_types@, expr_id.0 as int, depth as nat).0,
            final(self).diagnostics_view() == old(self).diagnostics_view() + type_comments(
                *pools,
                typing_ctx.expr_types@,
                expr_id.0 as int,
                depth as nat,
            ).1,
        decreases expr_id.0, 2nat,
    {
        let ghost o = self.output@;
        let ghost dv0 = self.diagnostics_view();
        let ghost et = typing_ctx.expr_types@;
        let ghost e = expr_id.0 as int;
        let ghost p = *pools;
        let mut found: Option<TypeId> = None;
        let mut k: usize = 0;
        while k < typing_ctx.expr_types.len()
            invariant
                k <= typing_ctx.expr_types@.len(),
                et == typing_ctx.expr_types@,
                typing_ctx.wf_in(pools),
                found == last_type_for(et, expr_id, k as int),
                found matches Some(t) ==> t.0 < pools.types@.len(),
            decreases typing_ctx.expr_types@.len() - k,
        {
            if typing_ctx.expr_types[k].0 == expr_id {
                found = Some(typing_ctx.expr_types[k].1);
            }
            k = k + 1;
        }
        assert(ExprId(e as usize) == expr_id);
        match found {
            Some(type_id) => {
                let mut indent_text: Vec<char> = Vec::new();
                let mut d: usize = 0;
                while d < depth
                    invariant
                        d <= depth,
                        indent_text@ == indent(d as nat),
                    decreases depth - d,
                {
                    push_str(&mut indent_text, "  ");
                    d = d + 1;
                }
                let mut type_info: Vec<char> = Vec::new();
                push_chars(&mut type_info, &indent_text);
                let e_text = pools.display_expr_chars(expr_id);
                push_chars(&mut type_info, &e_text);
                push_str(&mut type_info, ": ");
                let t = pools.display_type_chars(type_id);
                push_chars(&mut type_info, &t);
                let mut line: Vec<char> = Vec::new();
                push_chars(&mut line, &indent_text);
                push_str(&mut line, "// ");
                push_chars(&mut line, &type_info);
                push_str(&mut line, " ~ ");
                push_type_debug(&mut line, pools, pools.get_type(type_id));
                push_str(&mut line, "\n");
                let ghost info = type_info@;
                self.diagnostics.push(type_info);
                push_chars(&mut self.output, &line);
                proof {
                    assert(self.output@ =~= o + own_comment(p, et, e, depth as nat).0);
                    assert(self.diagnostics_view() =~= dv0 + own_comment(p, et, e, depth as nat).1);
                }
            },
            None => {
                proof {
                    assert(self.output@ =~= o + own_comment(p, et, e, depth as nat).0);
                    assert(self.diagnostics_view() =~= dv0 + own_comment(p, et, e, depth as nat).1);
                }
            },
        }
        let ghost o2 = self.output@;
        let ghost dv2 = self.diagnostics_view();
        self.print_sub_types(expr_id, pools, typing_ctx, depth);
        proof {
            let t = type_comments(p, et, e, depth as nat);
            assert(self.output@ =~= o + t.0);
            assert(self.diagnostics_view() =~= dv0 + t.1);
        }
    }

    /// Appends [`sub_comments`] for the subexpressions of `expr_id`, one level deeper.
    fn print_sub_types(&mut self, expr_id: ExprId, pools: &Pools, typing_ctx: &PooledTypingContext, depth: usize)
        requires
            pools.wf(),
            pools.valid_expr(expr_id),
            typing_ctx.wf_in(pools),
            depth + expr_id.0 < usize::MAX,
        ensures
            final(self).output@ == old(self).output@ + sub_comments(*pools, typing_ctx.expr_types@, expr_id.0 as int, (depth + 1) as nat).0,
            final(self).diagnostics_view() == old(self).diagnostics_view() + sub_comments(
                *pools,
                typing_ctx.expr_types@,
                expr_id.0 as int,
                (depth + 1) as nat,
            ).1,
        decreases expr_id.0, 1nat,
    {
        let ghost o2 = self.output@;
        let ghost dv2 = self.diagnostics_view();
        let ghost et = typing_ctx.expr_types@;
        let ghost e = expr_id.0 as int;
        let ghost p = *pools;
        let ghost dd = (depth + 1) as nat;
        assert(pools.expr_node_ok(pools.exprs@[e], e));
        match pools.get_expr(expr_id) {
            Expr::Lambda(body_id, _, _) => {
                self.print_expression_types_recursive(body_id, pools, typing_ctx, depth + 1);
            },
            Expr::Call(func_id, arg_id, _) => {
                self.print_expression_types_recursive(func_id, pools, typing_ctx, depth + 1);
                self.print_expression_types_recursive(arg_id, pools, typing_ctx, depth + 1);
                proof {
                    assert(self.output@ =~= o2 + sub_comments(p, et, e, dd).0);
                    assert(self.diagnostics_view() =~= dv2 + sub_comments(p, et, e, dd).1);
                }
            },
            Expr::Let(value_id, body_id, _, _) => {
                self.print_expression_types_recursive(value_id, pools, typing_ctx, depth + 1);
                self.print_expression_types_recursive(body_id, pools, typing_ctx, depth + 1);
                proof {
                    assert(self.output@ =~= o2 + sub_comments(p, et, e, dd).0);
                    assert(self.diagnostics_view() =~= dv2 + sub_comments(p, et, e, dd).1);
                }
            },
            Expr::Construct(_, arg_id, _) => {
                self.print_expression_types_recursive(arg_id, pools, typing_ctx, depth + 1);
            },
            Expr::Match(scrutinee, match_arms, _) => {
                self.print_expression_types_recursive(scrutinee, pools, typing_ctx, depth + 1);
                let ghost o3 = self.output@;
                let ghost dv3 = self.diagnostics_view();
                assert(pools.patterns@.len() == pools.patterns.len());
                let mut i: usize = 0;
                while i < match_arms.length
                    invariant
                        pools.wf(),
                        typing_ctx.wf_in(pools),
                        et == typing_ctx.expr_types@,
                        p == *pools,
                        pools.arms_below(match_arms, e),
                        e == expr_id.0,
                        dd == depth + 1,
                        i <= match_arms.length,
                        depth + e < usize::MAX,
                        pools.patterns@.len() == pools.patterns.len(),
                        self.output@ + arms_comments(p, et, e, match_arms.start_id.0 as int, match_arms.length as int, i as int, dd).0
                            == o3 + arms_comments(p, et, e, match_arms.start_id.0 as int, match_arms.length as int, 0, dd).0,
                        self.diagnostics_view() + arms_comments(p, et, e, match_arms.start_id.0 as int, match_arms.length as int, i as int, dd).1
                            == dv3 + arms_comments(p, et, e, match_arms.start_id.0 as int, match_arms.length as int, 0, dd).1,
                    decreases match_arms.length - i,
                {
                    let case = pools.get_pattern_case(PatternId(match_arms.start_id.0 + i));
                    assert(case == pools.patterns@[match_arms.start_id.0 + i]);
                    assert(case.body.0 < e);
                    let ghost before = self.output@;
                    let ghost dbefore = self.diagnostics_view();
                    self.print_expression_types_recursive(case.body, pools, typing_ctx, depth + 1);
                    proof {
                        let rest = arms_comments(p, et, e, match_arms.start_id.0 as int, match_arms.length as int, i + 1, dd);
                        let here = type_comments(p, et, case.body.0 as int, dd);
                        assert(arms_comments(p, et, e, match_arms.start_id.0 as int, match_arms.length as int, i as int, dd) == join2(here, rest));
                        assert(self.output@ + rest.0 =~= before + (here.0 + rest.0));
                        assert(self.diagnostics_view() + rest.1 =~= dbefore + (here.1 + rest.1));
                    }
                    i = i + 1;
                }
                proof {
                    assert(self.output@ =~= o3 + arms_comments(p, et, e, match_arms.start_id.0 as int, match_arms.length as int, 0, dd).0);
                    assert(self.diagnostics_view() =~= dv3 + arms_comments(p, et, e, match_arms.start_id.0 as int, match_arms.length as int, 0, dd).1);
                    assert(self.output@ =~= o2 + sub_comments(p, et, e, dd).0);
                    assert(self.diagnostics_view() =~= dv2 + sub_comments(p, et, e, dd).1);
                }
            },
            Expr::Record(start, len, _) => {
                self.print_field_types(pools, typing_ctx, expr_id, start.0, len, depth);
            },
            Expr::Project(record_id, _, _) => {
                self.print_expression_types_recursive(record_id, pools, typing_ctx, depth + 1);
            },
            Expr::Extend(record_id, start, len, _) => {
                self.print_expression_types_recursive(record_id, pools, typing_ctx, depth + 1);
                self.print_field_types(pools, typing_ctx, expr_id, start.0, len, depth);
                proof {
                    assert(self.output@ =~= o2 + sub_comments(p, et, e, dd).0);
                    assert(self.diagnostics_view() =~= dv2 + sub_comments(p, et, e, dd).1);
                }
            },
            Expr::Ffi(_, _, arg_expr, _) => {
                match arg_expr {
                    Some(arg_id) => {
                        self.print_expression_types_recursive(arg_id, pools, typing_ctx, depth + 1);
                    },
                    None => {
                        proof {
                            assert(self.output@ =~= o2 + sub_comments(p, et, e, dd).0);
                            assert(self.diagnostics_view() =~= dv2 + sub_comments(p, et, e, dd).1);
                        }
                    },
                }
            },
            _ => {
                proof {
                    assert(self.output@ =~= o2 + sub_comments(p, et, e, dd).0);
                    assert(self.diagnostics_view() =~= dv2 + sub_comments(p, et, e, dd).1);
                }
            },
        }
    }

    /// Appends [`fields_comments`] for the fields of the run at `start`, one level deeper.
    fn print_field_types(
        &mut self,
        pools: &Pools,
        typing_ctx: &PooledTypingContext,
        parent: ExprId,
        start: usize,
        len: usize,
        depth: usize,
    )
        requires
            pools.wf(),
            pools.valid_expr(parent),
            typing_ctx.wf_in(pools),
            pools.fields_below(start as int, len as int, parent.0 as int),
            depth + parent.0 < usize::MAX,
        ensures
            final(self).output@ == old(self).output@ + fields_comments(
                *pools,
                typing_ctx.expr_types@,
                parent.0 as int,
                start as int,
                len as int,
                0,
                (depth + 1) as nat,
            ).0,
            final(self).diagnostics_view() == old(self).diagnostics_view() + fields_comments(
                *pools,
                typing_ctx.expr_types@,
                parent.0 as int,
                start as int,
                len as int,
                0,
                (depth + 1) as nat,
            ).1,
        decreases parent.0, 0nat,
    {
        let ghost o = self.output@;
        let ghost dv0 = self.diagnostics_view();
        let ghost p = *pools;
        let ghost et = typing_ctx.expr_types@;
        let ghost dd = (depth + 1) as nat;
        assert(pools.record_fields@.len() == pools.record_fields.len());
        let mut i: usize = 0;
        while i < len
            invariant
                pools.wf(),
                typing_ctx.wf_in(pools),
                p == *pools,
                et == typing_ctx.expr_types@,
                dd == depth + 1,
                i <= len,
                pools.fields_below(start as int, len as int, parent.0 as int),
                pools.valid_expr(parent),
                depth + parent.0 < usize::MAX,
                pools.record_fields@.len() == pools.record_fields.len(),
                self.output@ + fields_comments(p, et, parent.0 as int, start as int, len as int, i as int, dd).0
                    == o + fields_comments(p, et, parent.0 as int, start as int, len as int, 0, dd).0,
                self.diagnostics_view() + fields_comments(p, et, parent.0 as int, start as int, len as int, i as int, dd).1
                    == dv0 + fields_comments(p, et, parent.0 as int, start as int, len as int, 0, dd).1,
            decreases len - i,
        {
            let field = pools.record_fields[start + i];
            assert(field == pools.record_fields@[start + i]);
            assert(field.expr.0 < parent.0);
            let ghost before = self.output@;
            let ghost dbefore = self.diagnostics_view();
            self.print_expression_types_recursive(field.expr, pools, typing_ctx, depth + 1);
            proof {
                let rest = fields_comments(p, et, parent.0 as int, start as int, len as int, i + 1, dd);
                let here = type_comments(p, et, field.expr.0 as int, dd);
                assert(fields_comments(p, et, parent.0 as int, start as int, len as int, i as int, dd) == join2(here, rest));
                assert(self.output@ + rest.0 =~= before + (here.0 + rest.0));
                assert(self.diagnostics_view() + rest.1 =~= dbefore + (here.1 + rest.1));
            }
            i = i + 1;
        }
        proof {
            assert(self.output@ =~= o + fields_comments(p, et, parent.0 as int, start as int, len as int, 0, dd).0);
            assert(self.diagnostics_view() =~= dv0 + fields_comments(p, et, parent.0 as int, start as int, len as int, 0, dd).1);
        }
    }

    /// Translates a program: it is parsed into `pools`, its definitions are
    /// checked in dependency order, it must define `main`, its expressions are
    /// checked; the result is the runtime helpers, the constructors, the
    /// functions, comments with the types of their expressions, and a call of `main`.
    pub fn transpile_program(&mut self, input: &str, pools: &mut Pools, filename: &str) -> (r: Result<String, String>)
        requires
            old(pools).wf(),
        ensures
            final(pools).wf(),
            r matches Ok(s) ==> s@ == final(self).output_text(),
            r is Ok ==> exists|et: Seq<(ExprId, TypeId)>|
                final(self).output_text() == old(self).output_text() + runtime_library() + constructors_js(*final(pools))
                    + functions_js(*final(pools)) + (#[trigger] types_listing(*final(pools), et, final(pools).function_implementations@.len() as int)).0
                    + main_call() && final(self).diagnostics_view() == old(self).diagnostics_view() + function_infos(
                    *final(pools),
                    false,
                    final(pools).function_implementations@.len() as int,
                ) + function_infos(*final(pools), true, final(pools).function_implementations@.len() as int)
                    + types_listing(*final(pools), et, final(pools).function_implementations@.len() as int).1,
            r is Ok ==> exists|k: int|
                0 <= k < final(pools).function_implementations@.len()
                    && final(pools).interner.text_of(#[trigger] final(pools).function_implementations@[k].0)
                    == "main"@,
            r is Err ==> final(self).output_text() == old(self).output_text() && final(self).diagnostics_view()
                == old(self).diagnostics_view(),
            crate::interpreter::fresh_program(old(pools)) && ((crate::parser::blank_text(input@) && input@.len() + 1 < usize::MAX)
                || crate::parser::number_text(input@))
                ==> (r matches Err(m) && m@ == "No main function found. Program must have a 'main' function."@),
    {
        let expr_ids = match LambdaParser::parse_program_to_pool(input, pools) {
            Ok(ids) => ids,
            Err(e) => return Err(e),
        };
        let ghost no_functions = crate::interpreter::fresh_program(old(pools)) && ((crate::parser::blank_text(input@)
            && input@.len() + 1 < usize::MAX) || crate::parser::number_text(input@));
        let mut typing_ctx = PooledTypingContext::new();
        let definition_groups = analyze_pool_dependencies(pools);
        proof {
            if no_functions {
                assert(pools.function_implementations@.len() == 0);
                assert forall|g: int| 0 <= g < definition_groups@.len() implies crate::type_inference::nothing_implemented(
                    pools.function_implementations@, (#[trigger] definition_groups@[g]).definitions@) by {
                    assert forall|m: int| 0 <= m < definition_groups@[g].definitions@.len() implies
                        assoc_get(pools.function_implementations@, #[trigger] definition_groups@[g].definitions@[m]) is None by {
                        crate::pools::lemma_assoc_index(pools.function_implementations@, definition_groups@[g].definitions@[m]);
                    }
                }
            }
        }
        match typing_ctx.infer_definition_groups(pools, definition_groups.as_slice()) {
            Ok(()) => {},
            Err(e) => return Err(e.display_comprehensive(pools, &typing_ctx, input, filename)),
        }
        let missing_main = str_to_chars("No main function found. Program must have a 'main' function.");
        let main = match main_name(pools) {
            Some(m) => m,
            None => return Err(chars_to_string(&missing_main)),
        };
        proof {
            if no_functions {
                assert(pools.function_implementations@.len() == 0);
                crate::pools::lemma_assoc_index(pools.function_implementations@, main);
                assert(assoc_get(pools.function_implementations@, main) is None);
            }
        }
        match pools.get_function_implementation(&main) {
            Some(_) => {},
            None => return Err(chars_to_string(&missing_main)),
        }
        proof {
            crate::pools::lemma_assoc_index(pools.function_implementations@, main);
        }
        let ghost fi = pools.function_implementations@;
        let ghost names = pools.interner;
        let mut i: usize = 0;
        while i < expr_ids.len()
            invariant
                i <= expr_ids@.len(),
                pools.wf(),
                typing_ctx.wf_in(pools),
                forall|k: int| 0 <= k < expr_ids@.len() ==> pools.valid_expr(#[trigger] expr_ids@[k]),
                pools.function_implementations@ == fi,
                pools.interner == names,
                !(crate::interpreter::fresh_program(old(pools)) && ((crate::parser::blank_text(input@) && input@.len() + 1
                    < usize::MAX) || crate::parser::number_text(input@))),
            decreases expr_ids@.len() - i,
        {
            match typing_ctx.infer_type(pools, expr_ids[i]) {
                Ok(_) => {},
                Err(e) => {
                    let mut msg = str_to_chars("Type error in expression: ");
                    let t = str_to_chars(e.display_with_location(pools).as_str());
                    push_chars(&mut msg, &t);
                    return Err(chars_to_string(&msg));
                },
            }
            i = i + 1;
        }
        let ghost start = self.output@;
        let ghost dstart = self.diagnostics_view();
        let ghost p = *pools;
        let ghost n = pools.function_implementations@.len() as int;
        let ghost et = typing_ctx.expr_types@;
        self.add_runtime_library();
        self.transpile_data_constructors(pools);
        let _ = self.transpile_functions(pools);
        let ghost base = self.output@;
        let ghost dbase = self.diagnostics_view();
        let mut i: usize = 0;
        while i < pools.function_implementations.len()
            invariant
                i <= pools.function_implementations@.len(),
                pools.wf(),
                p == *pools,
                n == pools.function_implementations@.len(),
                et == typing_ctx.expr_types@,
                typing_ctx.wf_in(pools),
                self.output@ == base + types_listing(p, et, i as int).0,
                self.diagnostics_view() == dbase + types_listing(p, et, i as int).1,
            decreases pools.function_implementations@.len() - i,
        {
            let (name, main_impl_id) = pools.function_implementations[i];
            assert(pools.tables_wf());
            assert(pools.function_implementations@[i as int].1.0 < pools.exprs@.len());
            let ghost before = self.output@;
            let ghost dbefore = self.diagnostics_view();
            push_str(&mut self.output, "// ");
            let t = pools.name_chars(name);
            push_chars(&mut self.output, &t);
            push_str(&mut self.output, " function expression types:\n");
            assert(pools.exprs@.len() == pools.exprs.len());
            self.print_expression_types_recursive(main_impl_id, pools, &typing_ctx, 0);
            proof {
                let c = type_comments(p, et, main_impl_id.0 as int, 0);
                assert(self.output@ =~= before + ("// "@ + p.interner.text_of(name) + " function expression types:\n"@ + c.0));
                assert(self.diagnostics_view() =~= dbefore + c.1);
            }
            i = i + 1;
        }
        push_str(&mut self.output, "// Execute main function\n");
        push_str(&mut self.output, "const result = main();\n");
        push_str(&mut self.output, "console.log('Result:', result);\n");
        proof {
            let k = crate::pools::assoc_index(fi, main);
            assert(0 <= k < fi.len() && fi[k].0 == main);
            assert(self.output@ =~= start + runtime_library() + constructors_js(p) + functions_js(p) + types_listing(p, et, n).0 + main_call());
            assert(self.diagnostics_view() =~= dstart + function_infos(p, false, n) + function_infos(p, true, n) + types_listing(p, et, n).1);
        }
        Ok(chars_to_string(&self.output))
    }
}

} // verus!
