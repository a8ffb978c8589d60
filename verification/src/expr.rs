//! Expressions and patterns.
use vstd::prelude::*;

use crate::pools::{DeBruijnIndex, ExprId, GlobalVarIdx, PatternId, SpanId, TypeId};
use crate::types::FieldId;
use crate::pools::{prefix_of, Pools};
use crate::text::{chars_to_string, int_text, push_chars, push_isize, push_str};
use crate::InternedString;

verus! {

/// One `name: expr` entry of a record literal or extension.
#[derive(Debug, Clone, Copy, PartialEq, Eq)]
pub struct RecordField {
    pub name: InternedString,
    pub expr: ExprId,
}

/// The `...rest` part of a record pattern.
#[derive(Debug, Clone, Copy, PartialEq, Eq)]
pub struct Spread {
    pub name: Option<InternedString>,
}

/// One `name: pattern` entry of a record pattern.
#[derive(Debug, Clone, Copy, PartialEq, Eq)]
pub struct RecordPatternField {
    pub name: InternedString,
    pub pattern: Pattern,
}

/// An expression node; compound nodes refer to earlier nodes of the expression pool.
#[derive(Debug, Clone, Copy, PartialEq, Eq)]
pub enum Expr {
    Int(isize, SpanId),
    String(InternedString, SpanId),
    Unit(SpanId),
    Var(DeBruijnIndex, InternedString, SpanId),
    GlobalVar(GlobalVarIdx, InternedString, SpanId),
    Call(ExprId, ExprId, SpanId),
    Lambda(ExprId, InternedString, SpanId),
    Let(ExprId, ExprId, InternedString, SpanId),
    /// `K E`: constructor application.
    Construct(InternedString, ExprId, SpanId),
    Match(ExprId, MatchArms, SpanId),
    /// `{f1: e1, ...}`: first field slot, number of fields.
    Record(FieldId, usize, SpanId),
    Project(ExprId, InternedString, SpanId),
    /// `{r with f1: e1, ...}`: record, first field slot, number of fields.
    Extend(ExprId, FieldId, usize, SpanId),
    /// `ffi!(<code>, type?, arg?)`.
    Ffi(InternedString, Option<TypeId>, Option<ExprId>, SpanId),
}

impl Expr {
    pub open spec fn spec_span(&self) -> SpanId {
        match self {
            Expr::Int(_, s) => *s,
            Expr::String(_, s) => *s,
            Expr::Unit(s) => *s,
            Expr::Var(_, _, s) => *s,
            Expr::GlobalVar(_, _, s) => *s,
            Expr::Call(_, _, s) => *s,
            Expr::Lambda(_, _, s) => *s,
            Expr::Let(_, _, _, s) => *s,
            Expr::Construct(_, _, s) => *s,
            Expr::Match(_, _, s) => *s,
            Expr::Record(_, _, s) => *s,
            Expr::Project(_, _, s) => *s,
            Expr::Extend(_, _, _, s) => *s,
            Expr::Ffi(_, _, _, s) => *s,
        }
    }

    /// The source span of this expression.
    pub fn span(&self) -> (r: SpanId)
        ensures
            r == self.spec_span(),
    {
        match self {
            Expr::Int(_, s) => *s,
            Expr::String(_, s) => *s,
            Expr::Unit(s) => *s,
            Expr::Var(_, _, s) => *s,
            Expr::GlobalVar(_, _, s) => *s,
            Expr::Call(_, _, s) => *s,
            Expr::Lambda(_, _, s) => *s,
            Expr::Let(_, _, _, s) => *s,
            Expr::Construct(_, _, s) => *s,
            Expr::Match(_, _, s) => *s,
            Expr::Record(_, _, s) => *s,
            Expr::Project(_, _, s) => *s,
            Expr::Extend(_, _, _, s) => *s,
            Expr::Ffi(_, _, _, s) => *s,
        }
    }
}

/// The run of match cases of a `match` expression in the case pool.
#[derive(Debug, Clone, Copy, PartialEq, Eq)]
pub struct MatchArms {
    pub start_id: PatternId,
    pub length: usize,
}

/// A pattern; constructor and record patterns refer to runs of the nested pools.
#[derive(Debug, Clone, Copy, PartialEq, Eq)]
pub enum Pattern {
    Constructor(InternedString, PatternId, usize, SpanId),
    Variable(DeBruijnIndex, InternedString, SpanId),
    Wildcard(SpanId),
    Int(isize, SpanId),
    String(InternedString, SpanId),
    Record(FieldId, usize, Option<Spread>, SpanId),
}

#[derive(Debug, Clone, Copy, PartialEq, Eq)]
pub struct PatternBinding {
    pub debruijn: DeBruijnIndex,
    pub name: InternedString,
}

/// One `| pattern -> body` case of a match.
#[derive(Debug, Clone, Copy, PartialEq, Eq)]
pub struct MatchCase {
    pub pattern: Pattern,
    pub body: ExprId,
}

} // verus!

verus! {

// ----- rendering -----------------------------------------------------------

/// A pattern in surface syntax; nested patterns are followed at most `fuel`
/// levels deep and show as `_` beyond that.
pub open spec fn pattern_text(p: Pools, pat: Pattern, fuel: nat) -> Seq<char>
    decreases fuel, 0int, 0int,
{
    if fuel == 0 {
        seq!['_']
    } else {
        match pat {
            Pattern::Constructor(c, start, len, _) => p.interner.text_of(c) + nested_pattern_text(
                p,
                start.0 as int,
                len as int,
                0,
                (fuel - 1) as nat,
            ),
            Pattern::Variable(_, name, _) => p.interner.text_of(name),
            Pattern::Wildcard(_) => seq!['_'],
            Pattern::Int(n, _) => int_text(n as int),
            Pattern::String(st, _) => seq!['"'] + p.interner.text_of(st) + seq!['"'],
            Pattern::Record(start, len, spread, _) => seq!['{'] + record_pattern_text(
                p,
                start.0 as int,
                len as int,
                0,
                (fuel - 1) as nat,
            ) + match spread {
                Some(sp) => (if len > 0 { ", "@ } else { Seq::empty() }) + "..."@ + match sp.name {
                    Some(n) => p.interner.text_of(n),
                    None => Seq::empty(),
                },
                None => Seq::empty(),
            } + seq!['}'],
        }
    }
}

/// The nested patterns `i..len` of the run at `start`, each preceded by a space.
pub open spec fn nested_pattern_text(p: Pools, start: int, len: int, i: int, fuel: nat) -> Seq<char>
    decreases fuel, 1int, len - i,
{
    if i >= len || i < 0 || start < 0 || start + len > p.nested_patterns@.len() {
        Seq::empty()
    } else {
        seq![' '] + pattern_text(p, p.nested_patterns@[start + i], fuel) + nested_pattern_text(
            p,
            start,
            len,
            i + 1,
            fuel,
        )
    }
}

/// The record pattern fields `i..len` of the run at `start` as `name: pattern`,
/// separated by `, `.
pub open spec fn record_pattern_text(p: Pools, start: int, len: int, i: int, fuel: nat) -> Seq<char>
    decreases fuel, 1int, len - i,
{
    if i >= len || i < 0 || start < 0 || start + len > p.record_pattern_fields@.len() {
        Seq::empty()
    } else {
        let f = p.record_pattern_fields@[start + i];
        (if i > 0 { ", "@ } else { Seq::empty() }) + p.interner.text_of(f.name) + ": "@ + pattern_text(
            p,
            f.pattern,
            fuel,
        ) + record_pattern_text(p, start, len, i + 1, fuel)
    }
}

/// How deep patterns are followed when shown.
pub open spec fn pattern_fuel_spec(p: Pools) -> nat {
    let a = p.nested_patterns@.len();
    let b = p.record_pattern_fields@.len();
    if b < usize::MAX - 1 && a < usize::MAX - b - 1 {
        a + b + 1
    } else {
        usize::MAX as nat
    }
}

/// Expression `e` in surface syntax: a called function in parentheses when it
/// is a function or `let`, an argument in parentheses when it is a call,
/// function or `let`, a constructor argument or projected record in
/// parentheses when it is a call, function, `let` or `match`.
pub open spec fn expr_text(p: Pools, e: int) -> Seq<char>
    decreases e, 1int, 0int,
{
    if e < 0 || e >= p.exprs@.len() {
        Seq::empty()
    } else {
        match p.exprs@[e] {
            Expr::Int(n, _) => int_text(n as int),
            Expr::String(st, _) => seq!['"'] + p.interner.text_of(st) + seq!['"'],
            Expr::Unit(_) => "()"@,
            Expr::Var(_, name, _) => p.interner.text_of(name),
            Expr::GlobalVar(_, name, _) => p.interner.text_of(name),
            Expr::Call(f, a, _) => if f.0 < e && a.0 < e {
                let ft = expr_text(p, f.0 as int);
                let at = expr_text(p, a.0 as int);
                (if p.exprs@[f.0 as int] is Lambda || p.exprs@[f.0 as int] is Let {
                    seq!['('] + ft + seq![')']
                } else {
                    ft
                }) + seq![' '] + (if p.exprs@[a.0 as int] is Call || p.exprs@[a.0 as int] is Lambda || p.exprs@[a.0 as int] is Let {
                    seq!['('] + at + seq![')']
                } else {
                    at
                })
            } else {
                Seq::empty()
            },
            Expr::Lambda(b, param, _) => "fn "@ + p.interner.text_of(param) + " => "@ + (if b.0 < e {
                expr_text(p, b.0 as int)
            } else {
                Seq::empty()
            }),
            Expr::Let(v, b, x, _) => "let "@ + p.interner.text_of(x) + " = "@ + (if v.0 < e {
                expr_text(p, v.0 as int)
            } else {
                Seq::empty()
            }) + " in "@ + (if b.0 < e { expr_text(p, b.0 as int) } else { Seq::empty() }),
            Expr::Construct(c, a, _) => p.interner.text_of(c) + seq![' '] + (if a.0 < e {
                if p.exprs@[a.0 as int] is Call || p.exprs@[a.0 as int] is Lambda || p.exprs@[a.0 as int] is Let
                    || p.exprs@[a.0 as int] is Match {
                    seq!['('] + expr_text(p, a.0 as int) + seq![')']
                } else {
                    expr_text(p, a.0 as int)
                }
            } else {
                Seq::empty()
            }),
            Expr::Match(x, arms, _) => "match "@ + (if x.0 < e { expr_text(p, x.0 as int) } else { Seq::empty() })
                + " with"@ + arms_text(p, e, arms, 0),
            Expr::Record(start, len, _) => seq!['{'] + record_fields_text(p, e, start.0 as int, len as int, 0) + seq![
                '}',
            ],
            Expr::Project(r, f, _) => (if r.0 < e {
                if p.exprs@[r.0 as int] is Call || p.exprs@[r.0 as int] is Lambda || p.exprs@[r.0 as int] is Let
                    || p.exprs@[r.0 as int] is Match {
                    seq!['('] + expr_text(p, r.0 as int) + seq![')']
                } else {
                    expr_text(p, r.0 as int)
                }
            } else {
                Seq::empty()
            }) + seq!['.'] + p.interner.text_of(f),
            Expr::Extend(r, start, len, _) => seq!['{'] + (if r.0 < e {
                expr_text(p, r.0 as int)
            } else {
                Seq::empty()
            }) + " with "@ + record_fields_text(p, e, start.0 as int, len as int, 0) + seq!['}'],
            Expr::Ffi(code, _, arg, _) => "ffi!(<"@ + p.interner.text_of(code) + seq!['>'] + match arg {
                Some(a) => ", "@ + (if a.0 < e { expr_text(p, a.0 as int) } else { Seq::empty() }),
                None => Seq::empty(),
            } + seq![')'],
        }
    }
}

/// The cases `i..` of a match, each as ` | pattern -> body`.
pub open spec fn arms_text(p: Pools, parent: int, arms: MatchArms, i: int) -> Seq<char>
    decreases parent, 0int, arms.length - i,
{
    if i >= arms.length || i < 0 || arms.start_id.0 + arms.length > p.patterns@.len() {
        Seq::empty()
    } else {
        let case = p.patterns@[arms.start_id.0 + i];
        " | "@ + pattern_text(p, case.pattern, pattern_fuel_spec(p)) + " -> "@ + (if 0 <= case.body.0 < parent {
            expr_text(p, case.body.0 as int)
        } else {
            Seq::empty()
        }) + arms_text(p, parent, arms, i + 1)
    }
}

/// The fields `i..len` of the run at `start` as `name: expr`, separated by `, `.
pub open spec fn record_fields_text(p: Pools, parent: int, start: int, len: int, i: int) -> Seq<char>
    decreases parent, 0int, len - i,
{
    if i >= len || i < 0 || start < 0 || start + len > p.record_fields@.len() {
        Seq::empty()
    } else {
        let f = p.record_fields@[start + i];
        (if i > 0 { ", "@ } else { Seq::empty() }) + p.interner.text_of(f.name) + ": "@ + (if 0 <= f.expr.0 < parent {
            expr_text(p, f.expr.0 as int)
        } else {
            Seq::empty()
        }) + record_fields_text(p, parent, start, len, i + 1)
    }
}

impl Pools {
    /// Renders an expression in surface syntax (`expr_text`).
    pub fn display_expr(&self, id: ExprId) -> (r: String)
        requires
            self.wf(),
            self.valid_expr(id),
        ensures
            r@ == expr_text(*self, id.0 as int),
    {
        let out = self.display_expr_chars(id);
        chars_to_string(&out)
    }

    pub fn display_expr_chars(&self, id: ExprId) -> (r: Vec<char>)
        requires
            self.wf(),
            self.valid_expr(id),
        ensures
            r@ == expr_text(*self, id.0 as int),
    {
        let mut out: Vec<char> = Vec::new();
        self.fmt_expr(&mut out, id);
        assert(out@ =~= expr_text(*self, id.0 as int));
        out
    }

    /// Appends the fields `i..len` of the run at `start` (`record_fields_text`).
    fn fmt_record_fields(&self, out: &mut Vec<char>, start: usize, len: usize, i: usize, bound: usize)
        requires
            self.wf(),
            self.fields_below(start as int, len as int, bound as int),
            bound < self.exprs@.len(),
        ensures
            final(out)@ == old(out)@ + record_fields_text(*self, bound as int, start as int, len as int, i as int),
        decreases bound, 0nat, len - i,
    {
        let ghost o = out@;
        if i >= len {
            assert(out@ =~= o + record_fields_text(*self, bound as int, start as int, len as int, i as int));
            return ;
        }
        assert(self.record_fields@.len() == self.record_fields.len());
        let field = self.record_fields[start + i];
        assert(field.expr.0 < bound);
        if i > 0 {
            push_str(out, ", ");
        }
        let t = self.name_chars(field.name);
        push_chars(out, &t);
        push_str(out, ": ");
        self.fmt_expr(out, field.expr);
        self.fmt_record_fields(out, start, len, i + 1, bound);
        assert(out@ =~= o + record_fields_text(*self, bound as int, start as int, len as int, i as int));
    }

    /// Appends the cases `i..` of a match (`arms_text`).
    fn fmt_arms(&self, out: &mut Vec<char>, arms: MatchArms, i: usize, bound: usize)
        requires
            self.wf(),
            self.arms_below(arms, bound as int),
            bound < self.exprs@.len(),
        ensures
            final(out)@ == old(out)@ + arms_text(*self, bound as int, arms, i as int),
        decreases bound, 0nat, arms.length - i,
    {
        let ghost o = out@;
        if i >= arms.length {
            assert(out@ =~= o + arms_text(*self, bound as int, arms, i as int));
            return ;
        }
        assert(self.patterns@.len() == self.patterns.len());
        let case = self.patterns[arms.start_id.0 + i];
        assert(case.body.0 < bound);
        push_str(out, " | ");
        let fuel = self.pattern_fuel();
        assert(self.pattern_ok(case.pattern));
        self.fmt_pattern(out, case.pattern, fuel);
        push_str(out, " -> ");
        self.fmt_expr(out, case.body);
        self.fmt_arms(out, arms, i + 1, bound);
        assert(out@ =~= o + arms_text(*self, bound as int, arms, i as int));
    }

    /// Appends expression `id` in surface syntax (`expr_text`).
    #[verifier::rlimit(60)]
    pub fn fmt_expr(&self, out: &mut Vec<char>, id: ExprId)
        requires
            self.wf(),
            self.valid_expr(id),
        ensures
            final(out)@ == old(out)@ + expr_text(*self, id.0 as int),
        decreases id.0, 1nat, 0nat,
    {
        let ghost o = out@;
        let ghost e = id.0 as int;
        let expr = self.exprs[id.0];
        proof {
            assert(self.expr_node_ok(self.exprs@[id.0 as int], id.0 as int));
        }
        match expr {
            Expr::Int(n, _) => push_isize(out, n),
            Expr::String(st, _) => {
                out.push('"');
                let t = self.name_chars(st);
                push_chars(out, &t);
                out.push('"');
                assert(out@ =~= o + expr_text(*self, e));
            },
            Expr::Unit(_) => push_str(out, "()"),
            Expr::Var(_, name, _) => {
                let t = self.name_chars(name);
                push_chars(out, &t);
            },
            Expr::GlobalVar(_, name, _) => {
                let t = self.name_chars(name);
                push_chars(out, &t);
            },
            Expr::Call(fun_id, arg_id, _) => {
                let needs_parens = match self.exprs[fun_id.0] {
                    Expr::Lambda(..) | Expr::Let(..) => true,
                    _ => false,
                };
                if needs_parens {
                    out.push('(');
                    self.fmt_expr(out, fun_id);
                    out.push(')');
                } else {
                    self.fmt_expr(out, fun_id);
                }
                out.push(' ');
                let arg_parens = match self.exprs[arg_id.0] {
                    Expr::Call(..) | Expr::Lambda(..) | Expr::Let(..) => true,
                    _ => false,
                };
                if arg_parens {
                    out.push('(');
                    self.fmt_expr(out, arg_id);
                    out.push(')');
                } else {
                    self.fmt_expr(out, arg_id);
                }
                assert(out@ =~= o + expr_text(*self, e));
            },
            Expr::Lambda(body_id, param_name, _) => {
                push_str(out, "fn ");
                let t = self.name_chars(param_name);
                push_chars(out, &t);
                push_str(out, " => ");
                self.fmt_expr(out, body_id);
                assert(out@ =~= o + expr_text(*self, e));
            },
            Expr::Let(value_id, body_id, var_name, _) => {
                push_str(out, "let ");
                let t = self.name_chars(var_name);
                push_chars(out, &t);
                push_str(out, " = ");
                self.fmt_expr(out, value_id);
                push_str(out, " in ");
                self.fmt_expr(out, body_id);
                assert(out@ =~= o + expr_text(*self, e));
            },
            Expr::Construct(constructor, arg_id, _) => {
                let t = self.name_chars(constructor);
                push_chars(out, &t);
                out.push(' ');
                let arg_needs_parens = match self.exprs[arg_id.0] {
                    Expr::Call(..) | Expr::Lambda(..) | Expr::Let(..) | Expr::Match(..) => true,
                    _ => false,
                };
                if arg_needs_parens {
                    out.push('(');
                    self.fmt_expr(out, arg_id);
                    out.push(')');
                } else {
                    self.fmt_expr(out, arg_id);
                }
                assert(out@ =~= o + expr_text(*self, e));
            },
            Expr::Match(scrutinee, match_arms, _) => {
                push_str(out, "match ");
                self.fmt_expr(out, scrutinee);
                push_str(out, " with");
                self.fmt_arms(out, match_arms, 0, id.0);
                assert(out@ =~= o + expr_text(*self, e));
            },
            Expr::Record(start, len, _) => {
                out.push('{');
                self.fmt_record_fields(out, start.0, len, 0, id.0);
                out.push('}');
                assert(out@ =~= o + expr_text(*self, e));
            },
            Expr::Project(record_id, field_name, _) => {
                let needs_parens = match self.exprs[record_id.0] {
                    Expr::Call(..) | Expr::Lambda(..) | Expr::Let(..) | Expr::Match(..) => true,
                    _ => false,
                };
                if needs_parens {
                    out.push('(');
                    self.fmt_expr(out, record_id);
                    out.push(')');
                } else {
                    self.fmt_expr(out, record_id);
                }
                out.push('.');
                let t = self.name_chars(field_name);
                push_chars(out, &t);
                assert(out@ =~= o + expr_text(*self, e));
            },
            Expr::Extend(record_id, start, len, _) => {
                out.push('{');
                self.fmt_expr(out, record_id);
                push_str(out, " with ");
                self.fmt_record_fields(out, start.0, len, 0, id.0);
                out.push('}');
                assert(out@ =~= o + expr_text(*self, e));
            },
            Expr::Ffi(js_code, _, arg, _) => {
                push_str(out, "ffi!(<");
                let t = self.name_chars(js_code);
                push_chars(out, &t);
                out.push('>');
                match arg {
                    Some(arg_id) => {
                        push_str(out, ", ");
                        self.fmt_expr(out, arg_id);
                    },
                    None => {},
                }
                out.push(')');
                assert(out@ =~= o + expr_text(*self, e));
            },
        }
    }

    /// A depth budget large enough for any pattern stored in these pools.
    pub fn pattern_fuel(&self) -> (r: usize)
        ensures
            r as nat == pattern_fuel_spec(*self),
    {
        let a = self.nested_patterns.len();
        let b = self.record_pattern_fields.len();
        if b < usize::MAX - 1 && a < usize::MAX - b - 1 {
            a + b + 1
        } else {
            usize::MAX
        }
    }

    /// Appends a pattern in surface syntax (`pattern_text`).
    pub fn fmt_pattern(&self, out: &mut Vec<char>, pattern: Pattern, fuel: usize)
        requires
            self.wf(),
            self.pattern_ok(pattern),
        ensures
            final(out)@ == old(out)@ + pattern_text(*self, pattern, fuel as nat),
        decreases fuel, 0nat, 0nat,
    {
        let ghost o = out@;
        if fuel == 0 {
            out.push('_');
            assert(out@ =~= o + pattern_text(*self, pattern, fuel as nat));
            return ;
        }
        match pattern {
            Pattern::Constructor(constructor, start_id, length, _) => {
                let t = self.name_chars(constructor);
                push_chars(out, &t);
                self.fmt_nested_patterns(out, start_id.0, length, 0, fuel - 1);
                assert(out@ =~= o + pattern_text(*self, pattern, fuel as nat));
            },
            Pattern::Variable(_, var_name, _) => {
                let t = self.name_chars(var_name);
                push_chars(out, &t);
            },
            Pattern::Wildcard(_) => {
                out.push('_');
                assert(out@ =~= o + pattern_text(*self, pattern, fuel as nat));
            },
            Pattern::Int(n, _) => push_isize(out, n),
            Pattern::String(st, _) => {
                out.push('"');
                let t = self.name_chars(st);
                push_chars(out, &t);
                out.push('"');
                assert(out@ =~= o + pattern_text(*self, pattern, fuel as nat));
            },
            Pattern::Record(start, len, spread, _) => {
                out.push('{');
                self.fmt_record_pattern_fields(out, start.0, len, 0, fuel - 1);
                match spread {
                    Some(sp) => {
                        if len > 0 {
                            push_str(out, ", ");
                        }
                        push_str(out, "...");
                        match sp.name {
                            Some(name) => {
                                let t = self.name_chars(name);
                                push_chars(out, &t);
                            },
                            None => {},
                        }
                    },
                    None => {},
                }
                out.push('}');
                assert(out@ =~= o + pattern_text(*self, pattern, fuel as nat));
            },
        }
    }

    /// Appends the nested patterns `i..len` of the run at `start`.
    fn fmt_nested_patterns(&self, out: &mut Vec<char>, start: usize, len: usize, i: usize, fuel: usize)
        requires
            self.wf(),
            start + len <= self.nested_patterns@.len(),
        ensures
            final(out)@ == old(out)@ + nested_pattern_text(*self, start as int, len as int, i as int, fuel as nat),
        decreases fuel, 1nat, len - i,
    {
        let ghost o = out@;
        if i >= len {
            assert(out@ =~= o + nested_pattern_text(*self, start as int, len as int, i as int, fuel as nat));
            return ;
        }
        assert(self.nested_patterns@.len() == self.nested_patterns.len());
        let nested = self.nested_patterns[start + i];
        assert(self.pattern_ok(self.nested_patterns@[start + i]));
        out.push(' ');
        self.fmt_pattern(out, nested, fuel);
        self.fmt_nested_patterns(out, start, len, i + 1, fuel);
        assert(out@ =~= o + nested_pattern_text(*self, start as int, len as int, i as int, fuel as nat));
    }

    /// Appends the record pattern fields `i..len` of the run at `start`.
    fn fmt_record_pattern_fields(&self, out: &mut Vec<char>, start: usize, len: usize, i: usize, fuel: usize)
        requires
            self.wf(),
            start + len <= self.record_pattern_fields@.len(),
        ensures
            final(out)@ == old(out)@ + record_pattern_text(*self, start as int, len as int, i as int, fuel as nat),
        decreases fuel, 1nat, len - i,
    {
        let ghost o = out@;
        if i >= len {
            assert(out@ =~= o + record_pattern_text(*self, start as int, len as int, i as int, fuel as nat));
            return ;
        }
        assert(self.record_pattern_fields@.len() == self.record_pattern_fields.len());
        let field = self.record_pattern_fields[start + i];
        assert(self.pattern_ok(self.record_pattern_fields@[start + i].pattern));
        if i > 0 {
            push_str(out, ", ");
        }
        let t = self.name_chars(field.name);
        push_chars(out, &t);
        push_str(out, ": ");
        self.fmt_pattern(out, field.pattern, fuel);
        self.fmt_record_pattern_fields(out, start, len, i + 1, fuel);
        assert(out@ =~= o + record_pattern_text(*self, start as int, len as int, i as int, fuel as nat));
    }
}

} // verus!
