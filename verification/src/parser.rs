//! The surface syntax: data and function declarations, and expressions.
//!
//! Programs are lexed into tokens, then read by recursive descent straight into the
//! pools. Operators are recognized after their left operand, so no part of the input
//! is read twice and nothing is allocated for an alternative that is then dropped.
use vstd::prelude::*;

use crate::expr::{Expr, MatchCase, Pattern, RecordField, RecordPatternField, Spread};
use crate::lexer::{span_is, tokenize, tokens_placed, Token, TokenKind};
use crate::pools::{DeBruijnIndex, ExprId, PatternId, Pools, SpanId, TypeId, TypeVarId};
use crate::text::{chars_to_string, push_chars, push_str, push_usize, str_to_chars};
use crate::types::{ConstructorType, FieldId, RowField, TypeScheme};
use crate::InternedString;

verus! {

/// Reads programs into the pools.
pub struct LambdaParser;

/// The program text and its tokens.
pub struct Source {
    pub text: Vec<char>,
    pub toks: Vec<Token>,
}

impl Source {
    pub open spec fn wf(&self) -> bool {
        &&& tokens_placed(self.toks@, self.text@.len())
        &&& self.text@.len() < usize::MAX - 1
        &&& self.toks@.len() <= self.text@.len()
    }

    pub open spec fn len(&self) -> nat {
        self.toks@.len()
    }

    /// The kind of the token at `pos`, if there is one.
    fn kind(&self, pos: usize) -> (r: Option<TokenKind>)
        ensures
            pos < self.toks@.len() ==> r == Some(self.toks@[pos as int].kind),
            pos >= self.toks@.len() ==> r is None,
    {
        if pos < self.toks.len() {
            Some(self.toks[pos].kind)
        } else {
            None
        }
    }

    fn is(&self, pos: usize, k: TokenKind) -> (r: bool)
        ensures
            r == (pos < self.toks@.len() && self.toks@[pos as int].kind == k),
    {
        pos < self.toks.len() && self.toks[pos].kind == k
    }

    /// The characters of the token at `pos`.
    fn chars(&self, pos: usize) -> (r: Vec<char>)
        requires
            self.wf(),
            pos < self.toks@.len(),
        ensures
            r@ == self.token_text(pos as int),
    {
        let t = self.toks[pos];
        proof {
            assert(self.toks@[pos as int].end <= self.text@.len());
        }
        let mut v: Vec<char> = Vec::new();
        let mut i = t.start;
        while i < t.end
            invariant
                t.start <= i <= t.end,
                t.end <= self.text@.len(),
                v@ == self.text@.subrange(t.start as int, i as int),
            decreases t.end - i,
        {
            v.push(self.text[i]);
            i = i + 1;
            assert(v@ =~= self.text@.subrange(t.start as int, i as int));
        }
        v
    }

    /// Where token `pos` starts (the end of the text past the last token).
    pub open spec fn start_at(&self, pos: int) -> int {
        if 0 <= pos < self.toks@.len() {
            self.toks@[pos].start as int
        } else {
            self.text@.len() as int
        }
    }

    /// Where the token before `pos` ends (0 before the first token).
    pub open spec fn end_before_at(&self, pos: int) -> int {
        if 0 < pos <= self.toks@.len() {
            self.toks@[pos - 1].end as int
        } else {
            0
        }
    }

    /// The characters of token `pos`.
    pub open spec fn token_text(&self, pos: int) -> Seq<char> {
        self.text@.subrange(self.toks@[pos].start as int, self.toks@[pos].end as int)
    }

    /// The characters `start..end` of the text.
    fn slice(&self, start: usize, end: usize) -> (r: Vec<char>)
        requires
            start <= end <= self.text@.len(),
        ensures
            r@ == self.text@.subrange(start as int, end as int),
    {
        let mut v: Vec<char> = Vec::new();
        let mut i = start;
        while i < end
            invariant
                start <= i <= end,
                end <= self.text@.len(),
                v@ == self.text@.subrange(start as int, i as int),
            decreases end - i,
        {
            v.push(self.text[i]);
            i = i + 1;
            assert(v@ =~= self.text@.subrange(start as int, i as int));
        }
        v
    }

    fn token_is(&self, pos: usize, word: &str) -> (r: bool)
        requires
            self.wf(),
        ensures
            r == (pos < self.toks@.len() && self.token_text(pos as int) == word@),
    {
        proof {
            if pos < self.toks@.len() {
                assert(self.toks@[pos as int].end <= self.text@.len());
            }
        }
        if pos < self.toks.len() {
            let t = self.toks[pos];
            span_is(&self.text, t.start, t.end, word)
        } else {
            false
        }
    }

    /// Where token `pos` starts (the end of the text past the last token).
    fn start_of(&self, pos: usize) -> (r: usize)
        requires
            self.wf(),
        ensures
            r <= self.text@.len(),
            r == self.start_at(pos as int),
    {
        proof {
            if pos < self.toks@.len() {
                assert(self.toks@[pos as int].end <= self.text@.len());
            }
        }
        if pos < self.toks.len() {
            self.toks[pos].start
        } else {
            self.text.len()
        }
    }

    /// Where the token before `pos` ends.
    fn end_before(&self, pos: usize) -> (r: usize)
        requires
            self.wf(),
        ensures
            r <= self.text@.len(),
            r == self.end_before_at(pos as int),
    {
        proof {
            if 0 < pos <= self.toks@.len() {
                assert(self.toks@[pos - 1].end <= self.text@.len());
            }
        }
        if pos > 0 && pos - 1 < self.toks.len() {
            self.toks[pos - 1].end
        } else {
            0
        }
    }

    /// A message naming the line and column of token `pos`.
    fn error(&self, pos: usize, what: &str) -> (r: String)
        requires
            self.wf(),
        ensures
            r@ == parse_error_text(self.text@, self.start_at(pos as int), what@),
    {
        let at = self.start_of(pos);
        let mut line: usize = 1;
        let mut col: usize = 1;
        let mut i: usize = 0;
        while i < at
            invariant
                i <= at,
                at <= self.text@.len(),
                self.text@.len() < usize::MAX - 1,
                line <= i + 1,
                col <= i + 1,
                (line as nat, col as nat) == line_col(self.text@, i as int),
            decreases at - i,
        {
            if self.text[i] == '\n' {
                line = line + 1;
                col = 1;
            } else {
                col = col + 1;
            }
            i = i + 1;
        }
        let mut out: Vec<char> = Vec::new();
        push_str(&mut out, "Parse error at ");
        push_usize(&mut out, line);
        push_str(&mut out, ":");
        push_usize(&mut out, col);
        push_str(&mut out, ": expected ");
        push_str(&mut out, what);
        assert(out@ =~= parse_error_text(self.text@, at as int, what@));
        chars_to_string(&out)
    }
}

/// The line and column (both from 1) of position `at` of a text.
pub open spec fn line_col(text: Seq<char>, at: int) -> (nat, nat)
    decreases at,
{
    if at <= 0 {
        (1, 1)
    } else {
        let (l, c) = line_col(text, at - 1);
        if text[at - 1] == '\n' {
            (l + 1, 1)
        } else {
            (l, c + 1)
        }
    }
}

/// The message of a parse error at position `at`, expecting `what`.
pub open spec fn parse_error_text(text: Seq<char>, at: int, what: Seq<char>) -> Seq<char> {
    "Parse error at "@ + crate::text::nat_digits(line_col(text, at).0) + ":"@ + crate::text::nat_digits(line_col(text, at).1)
        + ": expected "@ + what
}

/// `b` is `a` with nodes added.
pub open spec fn extends(a: &Pools, b: &Pools) -> bool {
    b.wf() && a.grows_to(b)
}

pub proof fn lemma_extends_trans(a: &Pools, b: &Pools, c: &Pools)
    requires
        extends(a, b),
        extends(b, c),
    ensures
        extends(a, c),
{
    Pools::lemma_grows_trans(a, b, c);
}

/// The local variables in scope, innermost last.
#[derive(Debug)]
pub struct ParseContext {
    pub name_stack: Vec<InternedString>,
}

impl ParseContext {
    pub fn new() -> (r: Self)
        ensures
            r.name_stack@.len() == 0,
    {
        Self { name_stack: Vec::new() }
    }

    /// This scope with `name` bound innermost.
    pub fn with_var(&self, name: InternedString) -> (r: Self)
        ensures
            r.name_stack@ == self.name_stack@.push(name),
    {
        let mut v = copy_names(&self.name_stack);
        v.push(name);
        Self { name_stack: v }
    }

    /// The De Bruijn index of the innermost binding of `name`.
    pub fn lookup_var(&self, name: InternedString) -> (r: Option<DeBruijnIndex>)
        ensures
            r matches Some(d) ==> d.0 < self.name_stack@.len() && self.name_stack@[self.name_stack@.len() - 1 - d.0] == name
                && forall|k: int| self.name_stack@.len() - 1 - d.0 < k < self.name_stack@.len() ==> #[trigger] self.name_stack@[k] != name,
            r is None ==> !self.name_stack@.contains(name),
    {
        let n = self.name_stack.len();
        let mut j: usize = 0;
        while j < n
            invariant
                j <= n,
                n == self.name_stack@.len(),
                forall|k: int| n - 1 - j < k < n ==> #[trigger] self.name_stack@[k] != name,
            decreases n - j,
        {
            if self.name_stack[n - 1 - j] == name {
                return Some(DeBruijnIndex::new(j));
            }
            j = j + 1;
        }
        None
    }
}

/// The type variables in scope: each name with its variable number.
#[derive(Debug)]
pub struct TypeVarContext {
    pub name_to_id: Vec<(InternedString, usize)>,
}

impl TypeVarContext {
    pub fn new() -> (r: Self)
        ensures
            r.name_to_id@.len() == 0,
    {
        Self { name_to_id: Vec::new() }
    }

    fn copy(&self) -> (r: Self)
        ensures
            r.name_to_id@ == self.name_to_id@,
    {
        let mut v: Vec<(InternedString, usize)> = Vec::new();
        let mut i: usize = 0;
        while i < self.name_to_id.len()
            invariant
                i <= self.name_to_id@.len(),
                v@ == self.name_to_id@.subrange(0, i as int),
            decreases self.name_to_id@.len() - i,
        {
            v.push(self.name_to_id[i]);
            i = i + 1;
            assert(v@ =~= self.name_to_id@.subrange(0, i as int));
        }
        assert(self.name_to_id@.subrange(0, self.name_to_id@.len() as int) =~= self.name_to_id@);
        Self { name_to_id: v }
    }

    fn bind(&mut self, name: InternedString, id: usize)
        ensures
            final(self).name_to_id@ == crate::pools::assoc_put(old(self).name_to_id@, name, id),
    {
        crate::pools::assoc_insert(&mut self.name_to_id, name, id);
    }

    /// The number of the type variable called `name`.
    pub fn lookup(&self, name: InternedString) -> (r: Option<usize>)
        ensures
            r == crate::pools::assoc_get(self.name_to_id@, name),
    {
        proof {
            crate::pools::lemma_assoc_index(self.name_to_id@, name);
        }
        match crate::pools::assoc_find(&self.name_to_id, name) {
            Some(i) => Some(self.name_to_id[i].1),
            None => None,
        }
    }
}

/// Interns the text of token `pos`.
fn intern_token(src: &Source, pos: usize, pools: &mut Pools) -> (r: Result<InternedString, String>)
    requires
        src.wf(),
        old(pools).wf(),
        pos < src.toks@.len(),
    ensures
        extends(old(pools), final(pools)),
        (r is Ok) == (old(pools).interner.strings@.len() < 0xFFFF_FFFE),
        r matches Ok(n) ==> final(pools).interner.text_of(n) == src.token_text(pos as int) && (n.0 as int)
            < final(pools).interner.strings@.len(),
        r is Err ==> *final(pools) == *old(pools),
{
    let chars = src.chars(pos);
    match pools.intern_chars(&chars) {
        Some(n) => Ok(n),
        None => Err(src.error(pos, "fewer distinct names")),
    }
}

fn intern_text(pools: &mut Pools, s: &str) -> (r: Result<InternedString, String>)
    requires
        old(pools).wf(),
    ensures
        extends(old(pools), final(pools)),
        (r is Ok) == (old(pools).interner.strings@.len() < 0xFFFF_FFFE),
        r matches Ok(n) ==> final(pools).interner.text_of(n) == s@,
        r matches Err(m) ==> *final(pools) == *old(pools) && m@ == "Too many distinct names"@,
{
    match pools.intern_name(s) {
        Some(n) => Ok(n),
        None => Err(chars_to_string(&str_to_chars("Too many distinct names"))),
    }
}

/// A span for the source range of tokens `from..to`.
fn span_of(src: &Source, from: usize, to: usize, pools: &mut Pools) -> (r: SpanId)
    requires
        src.wf(),
        old(pools).wf(),
    ensures
        extends(old(pools), final(pools)),
        final(pools).valid_span(r),
        old(pools).pushed_span(
            final(pools),
            crate::pools::Localization::Real {
                start: src.start_at(from as int) as usize,
                end: if src.end_before_at(to as int) < src.start_at(from as int) {
                    src.start_at(from as int)
                } else {
                    src.end_before_at(to as int)
                } as usize,
            },
            r,
        ),
{
    let start = src.start_of(from);
    let end = src.end_before(to);
    let e = if end < start {
        start
    } else {
        end
    };
    pools.localization(start, e)
}

/// The value of a digit character.
pub open spec fn digit_value(c: char) -> int {
    c as int - '0' as int
}

/// The value of a string of decimal digits.
pub open spec fn decimal_value(s: Seq<char>) -> int
    decreases s.len(),
{
    if s.len() == 0 {
        0
    } else {
        decimal_value(s.drop_last()) * 10 + digit_value(s.last())
    }
}

pub open spec fn all_digits(s: Seq<char>) -> bool {
    forall|k: int| 0 <= k < s.len() ==> crate::lexer::is_digit_char(#[trigger] s[k])
}

/// The integer a number token spells: digits with an optional leading `-`, where the
/// value fits in an `isize`.
pub open spec fn number_of(t: Seq<char>) -> Option<int> {
    let negative = t.len() > 0 && t[0] == '-';
    let digits = if negative { t.drop_first() } else { t };
    if !all_digits(digits) {
        None
    } else if negative {
        if decimal_value(digits) <= isize::MAX + 1 { Some(-decimal_value(digits)) } else { None }
    } else if decimal_value(digits) <= isize::MAX {
        Some(decimal_value(digits))
    } else {
        None
    }
}

proof fn lemma_decimal_mono(s: Seq<char>, m: int, n: int)
    requires
        0 <= m <= n <= s.len(),
        all_digits(s),
    ensures
        0 <= decimal_value(s.subrange(0, m)) <= decimal_value(s.subrange(0, n)),
    decreases n,
{
    if m < n {
        lemma_decimal_mono(s, m, n - 1);
        assert(s.subrange(0, n).drop_last() =~= s.subrange(0, n - 1));
        assert(crate::lexer::is_digit_char(s[n - 1]));
    } else if n > 0 {
        lemma_decimal_mono(s, n - 1, n - 1);
        assert(s.subrange(0, n).drop_last() =~= s.subrange(0, n - 1));
        assert(crate::lexer::is_digit_char(s[n - 1]));
    }
}

/// The value of a number token, if it fits.
fn number_value(src: &Source, pos: usize) -> (r: Option<isize>)
    requires
        src.wf(),
        pos < src.toks@.len(),
    ensures
        (r is Some) == (number_of(src.token_text(pos as int)) is Some),
        r matches Some(v) ==> v == number_of(src.token_text(pos as int)).unwrap(),
{
    let chars = src.chars(pos);
    let mut i: usize = 0;
    let negative = chars.len() > 0 && chars[0] == '-';
    if negative {
        i = 1;
    }
    let ghost off = i as int;
    let ghost digits = chars@.subrange(off, chars@.len() as int);
    proof {
        if negative {
            assert(digits =~= chars@.drop_first());
        } else {
            assert(digits =~= chars@);
        }
    }
    let mut acc: u128 = 0;
    while i < chars.len()
        invariant
            0 <= off <= i <= chars@.len(),
            off == (if chars@.len() > 0 && chars@[0] == '-' { 1int } else { 0int }),
            chars@ == src.token_text(pos as int),
            negative == (chars@.len() > 0 && chars@[0] == '-'),
            digits == chars@.subrange(off, chars@.len() as int),
            digits == (if negative { chars@.drop_first() } else { chars@ }),
            acc <= 100_000_000_000_000_000_009u128,
            acc == decimal_value(chars@.subrange(off, i as int)),
            all_digits(chars@.subrange(off, i as int)),
        decreases chars@.len() - i,
    {
        let c = chars[i];
        if !('0' <= c && c <= '9') {
            assert(digits[i - off] == c);
            return None;
        }
        assert(chars@.subrange(off, i + 1).drop_last() =~= chars@.subrange(off, i as int));
        assert(chars@.subrange(off, i + 1).last() == c);
        if acc > 10_000_000_000_000_000_000u128 {
            proof {
                if all_digits(digits) {
                    assert(digits.subrange(0, i + 1 - off) =~= chars@.subrange(off, i + 1));
                    assert(digits.subrange(0, digits.len() as int) =~= digits);
                    lemma_decimal_mono(digits, i + 1 - off, digits.len() as int);
                    assert(isize::MAX < 10_000_000_000_000_000_000u128);
                }
            }
            return None;
        }
        let d: u128 = (c as u32 - '0' as u32) as u128;
        acc = acc * 10 + d;
        i = i + 1;
        assert(all_digits(chars@.subrange(off, i as int)));
    }
    assert(chars@.subrange(off, i as int) =~= digits);
    if negative {
        if acc <= (isize::MAX as u128) + 1 {
            let v: i128 = -(acc as i128);
            Some(v as isize)
        } else {
            None
        }
    } else if acc <= isize::MAX as u128 {
        Some(acc as isize)
    } else {
        None
    }
}

/// A copy of a list of names.
fn copy_names(v: &Vec<InternedString>) -> (r: Vec<InternedString>)
    ensures
        r@ == v@,
{
    let mut r: Vec<InternedString> = Vec::new();
    let mut i: usize = 0;
    while i < v.len()
        invariant
            i <= v@.len(),
            r@ == v@.subrange(0, i as int),
        decreases v@.len() - i,
    {
        r.push(v[i]);
        i = i + 1;
        assert(r@ =~= v@.subrange(0, i as int));
    }
    assert(v@.subrange(0, v@.len() as int) =~= v@);
    r
}

/// The characters of a string or foreign-code token without its delimiters.
fn inner_chars(src: &Source, pos: usize) -> (r: Vec<char>)
    requires
        src.wf(),
        pos < src.toks@.len(),
    ensures
        r@ == if src.toks@[pos as int].end - src.toks@[pos as int].start >= 2 {
            src.text@.subrange(src.toks@[pos as int].start + 1, src.toks@[pos as int].end - 1)
        } else {
            Seq::empty()
        },
{
    assert(src.toks@[pos as int].end <= src.text@.len());
    let t = src.toks[pos];
    if t.end - t.start >= 2 {
        src.slice(t.start + 1, t.end - 1)
    } else {
        Vec::new()
    }
}

/// The nesting budget for reading a token sequence.
/// The nesting budget for `n` tokens.
pub open spec fn parse_fuel_spec(n: int) -> int {
    if n < 0x1000_0000 { n * 8 + 64 } else { usize::MAX as int }
}

fn parse_fuel(n: usize) -> (r: usize)
    ensures
        r == parse_fuel_spec(n as int),
{
    if n < 0x1000_0000 {
        n * 8 + 64
    } else {
        usize::MAX
    }
}

// ----- recognizers: where a term ends, without reading it -----------------

pub open spec fn is_open(k: TokenKind) -> bool {
    k == TokenKind::LParen || k == TokenKind::LBrace
}

pub open spec fn is_close(k: TokenKind) -> bool {
    k == TokenKind::RParen || k == TokenKind::RBrace
}

/// Walking a bracket group opened at `pos` from token `p` at nesting `depth`: the
/// position after its closing bracket.
pub open spec fn group_walk(toks: Seq<Token>, pos: int, p: int, depth: int) -> Option<int>
    decreases toks.len() - p,
{
    if p < 0 || p >= toks.len() {
        None
    } else if is_open(toks[p].kind) {
        group_walk(toks, pos, p + 1, depth + 1)
    } else if is_close(toks[p].kind) {
        if depth <= 1 {
            if p == pos { None } else { Some(p + 1) }
        } else {
            group_walk(toks, pos, p + 1, depth - 1)
        }
    } else {
        group_walk(toks, pos, p + 1, depth)
    }
}

/// The position after the bracket group opened at `pos`.
pub open spec fn group_end(toks: Seq<Token>, pos: int) -> Option<int> {
    if pos < 0 || pos >= toks.len() { None } else { group_walk(toks, pos, pos, 0) }
}

/// Walking a bracket group from token `p` at nesting `depth`: a `_` at its top level.
pub open spec fn placeholder_walk(toks: Seq<Token>, p: int, depth: int) -> bool
    decreases toks.len() - p,
{
    if p < 0 || p >= toks.len() {
        false
    } else if is_open(toks[p].kind) {
        placeholder_walk(toks, p + 1, depth + 1)
    } else if is_close(toks[p].kind) {
        if depth <= 1 { false } else { placeholder_walk(toks, p + 1, depth - 1) }
    } else if toks[p].kind == TokenKind::Underscore && depth == 1 {
        true
    } else {
        placeholder_walk(toks, p + 1, depth)
    }
}

/// Token `pos` is `ffi` followed by `!`.
pub open spec fn ffi_start_at(src: &Source, pos: int) -> bool {
    0 <= pos && pos + 1 < src.toks@.len() && src.toks@[pos].kind == TokenKind::Lower && src.toks@[pos + 1].kind
        == TokenKind::Bang && src.token_text(pos) == "ffi"@
}

/// Where the atom starting at `pos` ends.
pub open spec fn atom_end(src: &Source, pos: int) -> Option<int> {
    if pos < 0 || pos >= src.toks@.len() {
        None
    } else {
        match src.toks@[pos].kind {
            TokenKind::Number | TokenKind::Str | TokenKind::Upper => Some(pos + 1),
            TokenKind::Lower => if ffi_start_at(src, pos) {
                group_end(src.toks@, pos + 2)
            } else if pos + 1 < src.toks@.len() && src.toks@[pos + 1].kind == TokenKind::LParen && placeholder_walk(
                src.toks@,
                pos + 1,
                0,
            ) {
                group_end(src.toks@, pos + 1)
            } else {
                Some(pos + 1)
            },
            TokenKind::LParen | TokenKind::LBrace => group_end(src.toks@, pos),
            _ => None,
        }
    }
}

/// Past the `.name` projections that start at `p`.
pub open spec fn projections_end(src: &Source, p: int) -> int
    decreases src.toks@.len() - p,
{
    if 0 <= p && p + 1 < src.toks@.len() && src.toks@[p].kind == TokenKind::Dot && src.toks@[p + 1].kind == TokenKind::Lower {
        projections_end(src, p + 2)
    } else {
        p
    }
}

/// Where the atom with projections starting at `pos` ends.
pub open spec fn arg_end(src: &Source, pos: int) -> Option<int> {
    match atom_end(src, pos) {
        Some(p) => Some(projections_end(src, p)),
        None => None,
    }
}

/// Past the arguments that follow one another from `p` on.
pub open spec fn args_end(src: &Source, p: int) -> int
    decreases src.toks@.len() - p,
{
    match arg_end(src, p) {
        Some(q) => if p < q <= src.toks@.len() { args_end(src, q) } else { p },
        None => p,
    }
}

/// Where the term (an application of arguments, or one argument) starting at `pos` ends.
pub open spec fn term_end(src: &Source, pos: int) -> Option<int> {
    match arg_end(src, pos) {
        Some(p) => Some(args_end(src, p)),
        None => None,
    }
}

/// Where an optional term starting at `pos` ends (`pos` itself when there is none).
pub open spec fn optional_term_end(src: &Source, pos: int) -> int {
    match term_end(src, pos) {
        Some(p) => p,
        None => pos,
    }
}

pub open spec fn kind_at(src: &Source, p: int, k: TokenKind) -> bool {
    0 <= p < src.toks@.len() && src.toks@[p].kind == k
}

/// `< term >` starts at `lt`.
pub open spec fn angle_apply_at(src: &Source, lt: int) -> bool {
    kind_at(src, lt, TokenKind::Lt) && (term_end(src, lt + 1) matches Some(p) && kind_at(src, p, TokenKind::Gt))
}

/// `< term? | term | term? >` starts at `lt`.
pub open spec fn ternary_angle_at(src: &Source, lt: int) -> bool {
    &&& kind_at(src, lt, TokenKind::Lt)
    &&& kind_at(src, optional_term_end(src, lt + 1), TokenKind::Bar)
    &&& term_end(src, optional_term_end(src, lt + 1) + 1) matches Some(p2) && kind_at(src, p2, TokenKind::Bar)
        && kind_at(src, optional_term_end(src, p2 + 1), TokenKind::Gt)
}

/// `| term? > term < term? |` starts at `bar`.
pub open spec fn pipe_angle_at(src: &Source, bar: int) -> bool {
    &&& kind_at(src, bar, TokenKind::Bar)
    &&& kind_at(src, optional_term_end(src, bar + 1), TokenKind::Gt)
    &&& term_end(src, optional_term_end(src, bar + 1) + 1) matches Some(p2) && kind_at(src, p2, TokenKind::Lt)
        && kind_at(src, optional_term_end(src, p2 + 1), TokenKind::Bar)
}

/// The position after the bracket group opened at `pos`.
fn skip_group(src: &Source, pos: usize) -> (r: Option<usize>)
    requires
        src.wf(),
    ensures
        r matches Some(p) ==> pos < p <= src.toks@.len(),
        (r is Some) == (group_end(src.toks@, pos as int) is Some),
        r matches Some(p) ==> group_end(src.toks@, pos as int) == Some(p as int),
{
    if pos >= src.toks.len() {
        return None;
    }
    let mut depth: usize = 0;
    let mut p = pos;
    while p < src.toks.len()
        invariant
            pos <= p <= src.toks@.len(),
            src.wf(),
            depth <= p - pos,
            group_walk(src.toks@, pos as int, p as int, depth as int) == group_end(src.toks@, pos as int),
        decreases src.toks@.len() - p,
    {
        let k = src.toks[p].kind;
        if k == TokenKind::LParen || k == TokenKind::LBrace {
            if depth == usize::MAX {
                return None;
            }
            depth = depth + 1;
        } else if k == TokenKind::RParen || k == TokenKind::RBrace {
            if depth <= 1 {
                if p == pos {
                    return None;
                }
                return Some(p + 1);
            }
            depth = depth - 1;
        }
        p = p + 1;
    }
    None
}

/// Whether the group opened at `pos` holds a `_` at its top level.
fn group_has_placeholder(src: &Source, pos: usize) -> (r: bool)
    requires
        src.wf(),
    ensures
        r == placeholder_walk(src.toks@, pos as int, 0),
{
    if pos >= src.toks.len() {
        return false;
    }
    let mut depth: usize = 0;
    let mut p = pos;
    while p < src.toks.len()
        invariant
            pos <= p <= src.toks@.len(),
            src.wf(),
            depth <= p - pos,
            placeholder_walk(src.toks@, p as int, depth as int) == placeholder_walk(src.toks@, pos as int, 0),
        decreases src.toks@.len() - p,
    {
        let k = src.toks[p].kind;
        if k == TokenKind::LParen || k == TokenKind::LBrace {
            if depth == usize::MAX {
                return false;
            }
            depth = depth + 1;
        } else if k == TokenKind::RParen || k == TokenKind::RBrace {
            if depth <= 1 {
                return false;
            }
            depth = depth - 1;
        } else if k == TokenKind::Underscore && depth == 1 {
            return true;
        }
        p = p + 1;
    }
    false
}

/// Whether token `pos` starts a foreign-function expression.
fn is_ffi_start(src: &Source, pos: usize) -> (r: bool)
    requires
        src.wf(),
        pos <= src.toks@.len(),
    ensures
        r == ffi_start_at(src, pos as int),
{
    src.is(pos, TokenKind::Lower) && pos + 1 < src.toks.len() && src.is(pos + 1, TokenKind::Bang) && src.token_is(pos, "ffi")
}

/// Where the atom starting at `pos` ends.
fn scan_atom(src: &Source, pos: usize) -> (r: Option<usize>)
    requires
        src.wf(),
        pos <= src.toks@.len(),
    ensures
        r matches Some(p) ==> pos < p <= src.toks@.len(),
        (r is Some) == (atom_end(src, pos as int) is Some),
        r matches Some(p) ==> atom_end(src, pos as int) == Some(p as int),
{
    match src.kind(pos) {
        Some(TokenKind::Number) | Some(TokenKind::Str) | Some(TokenKind::Upper) => Some(pos + 1),
        Some(TokenKind::Lower) => {
            if is_ffi_start(src, pos) {
                match skip_group(src, pos + 2) {
                    Some(p) => Some(p),
                    None => None,
                }
            } else if src.is(pos + 1, TokenKind::LParen) && group_has_placeholder(src, pos + 1) {
                skip_group(src, pos + 1)
            } else {
                Some(pos + 1)
            }
        },
        Some(TokenKind::LParen) | Some(TokenKind::LBrace) => skip_group(src, pos),
        _ => None,
    }
}

/// Where the atom with projections starting at `pos` ends.
fn scan_arg(src: &Source, pos: usize) -> (r: Option<usize>)
    requires
        src.wf(),
        pos <= src.toks@.len(),
    ensures
        r matches Some(p) ==> pos < p <= src.toks@.len(),
        (r is Some) == (arg_end(src, pos as int) is Some),
        r matches Some(p) ==> arg_end(src, pos as int) == Some(p as int),
{
    match scan_atom(src, pos) {
        None => None,
        Some(mut p) => {
            let ghost p0 = p as int;
            while p + 1 < src.toks.len() && src.is(p, TokenKind::Dot) && src.is(p + 1, TokenKind::Lower)
                invariant
                    pos < p <= src.toks@.len(),
                    src.wf(),
                    projections_end(src, p as int) == projections_end(src, p0),
                decreases src.toks@.len() - p,
            {
                p = p + 2;
            }
            Some(p)
        },
    }
}

/// Where the term (an application of arguments, or one argument) starting at `pos` ends.
fn scan_term(src: &Source, pos: usize) -> (r: Option<usize>)
    requires
        src.wf(),
        pos <= src.toks@.len(),
    ensures
        r matches Some(p) ==> pos < p <= src.toks@.len(),
        (r is Some) == (term_end(src, pos as int) is Some),
        r matches Some(p) ==> term_end(src, pos as int) == Some(p as int),
{
    match scan_arg(src, pos) {
        None => None,
        Some(mut p) => {
            let ghost p0 = p as int;
            loop
                invariant
                    pos < p <= src.toks@.len(),
                    src.wf(),
                    args_end(src, p as int) == args_end(src, p0),
                    arg_end(src, pos as int) == Some(p0),
                ensures
                    args_end(src, p0) == p as int,
                    arg_end(src, pos as int) == Some(p0),
                    pos < p <= src.toks@.len(),
                decreases src.toks@.len() - p,
            {
                match scan_arg(src, p) {
                    Some(q) => {
                        p = q;
                    },
                    None => {
                        break;
                    },
                }
            }
            Some(p)
        },
    }
}

/// Where an optional term starting at `pos` ends (`pos` itself when there is none).
fn scan_optional_term(src: &Source, pos: usize) -> (r: usize)
    requires
        src.wf(),
        pos <= src.toks@.len(),
    ensures
        pos <= r <= src.toks@.len(),
        r == optional_term_end(src, pos as int),
{
    match scan_term(src, pos) {
        Some(p) => p,
        None => pos,
    }
}

/// `term < term > ...` starts at the `<` at `lt`.
fn is_angle_apply(src: &Source, lt: usize) -> (r: bool)
    requires
        src.wf(),
        lt <= src.toks@.len(),
    ensures
        r == angle_apply_at(src, lt as int),
{
    if !src.is(lt, TokenKind::Lt) {
        return false;
    }
    match scan_term(src, lt + 1) {
        Some(p) => src.is(p, TokenKind::Gt),
        None => false,
    }
}

/// `term < f? | g | h? > ...` starts at the `<` at `lt`.
fn is_ternary_angle(src: &Source, lt: usize) -> (r: bool)
    requires
        src.wf(),
        lt <= src.toks@.len(),
    ensures
        r == ternary_angle_at(src, lt as int),
{
    if !src.is(lt, TokenKind::Lt) {
        return false;
    }
    let p1 = scan_optional_term(src, lt + 1);
    if !src.is(p1, TokenKind::Bar) {
        return false;
    }
    match scan_term(src, p1 + 1) {
        Some(p2) => {
            if !src.is(p2, TokenKind::Bar) {
                return false;
            }
            let p3 = scan_optional_term(src, p2 + 1);
            src.is(p3, TokenKind::Gt)
        },
        None => false,
    }
}

/// `term | f? > g < h? | ...` starts at the `|` at `bar`.
fn is_pipe_angle(src: &Source, bar: usize) -> (r: bool)
    requires
        src.wf(),
        bar <= src.toks@.len(),
    ensures
        r == pipe_angle_at(src, bar as int),
{
    if !src.is(bar, TokenKind::Bar) {
        return false;
    }
    let p1 = scan_optional_term(src, bar + 1);
    if !src.is(p1, TokenKind::Gt) {
        return false;
    }
    match scan_term(src, p1 + 1) {
        Some(p2) => {
            if !src.is(p2, TokenKind::Lt) {
                return false;
            }
            let p3 = scan_optional_term(src, p2 + 1);
            src.is(p3, TokenKind::Bar)
        },
        None => false,
    }
}

} // verus!

verus! {

/// What every reading step guarantees.
pub open spec fn read_type_ok(src: &Source, a: &Pools, b: &Pools, pos: usize, r: Result<(TypeId, usize), String>) -> bool {
    &&& extends(a, b)
    &&& (r matches Ok(x) ==> b.valid_type(x.0) && pos < x.1 <= src.toks@.len())
}

/// The number of the type variable named by token `pos`, or an error.
fn lookup_type_var(src: &Source, pos: usize, pools: &mut Pools, tctx: &TypeVarContext) -> (r: Result<usize, String>)
    requires
        src.wf(),
        old(pools).wf(),
        pos < src.toks@.len(),
    ensures
        extends(old(pools), final(pools)),
        r matches Ok(id) ==> exists|n: InternedString|
            final(pools).interner.text_of(n) == src.token_text(pos as int) && (n.0 as int) < final(pools).interner.strings@.len()
                && crate::pools::assoc_get(tctx.name_to_id@, n) == Some(id),
        r is Err ==> old(pools).interner.strings@.len() >= 0xFFFF_FFFE || exists|n: InternedString|
            final(pools).interner.text_of(n) == src.token_text(pos as int) && (n.0 as int) < final(pools).interner.strings@.len()
                && crate::pools::assoc_get(tctx.name_to_id@, n) is None,
{
    let name = match intern_token(src, pos, pools) {
        Ok(n) => n,
        Err(e) => return Err(e),
    };
    match tctx.lookup(name) {
        Some(id) => Ok(id),
        None => {
            assert(pools.interner.text_of(name) == src.token_text(pos as int));
            let mut msg = str_to_chars("Unknown type variable: ");
            let chars = src.chars(pos);
            push_chars(&mut msg, &chars);
            Err(chars_to_string(&msg))
        },
    }
}

/// A lower-case name read as a type on its own: the type variable the name is bound to
/// in `tctx`; reading fails when the name has no binding or no name can be interned.
pub open spec fn type_var_read(
    src: &Source,
    pos: int,
    tctx: &TypeVarContext,
    a: &Pools,
    b: &Pools,
    r: Result<(TypeId, usize), String>,
) -> bool {
    &&& (r is Ok) == (a.interner.strings@.len() < 0xFFFF_FFFE && exists|n: InternedString|
        b.interner.text_of(n) == src.token_text(pos) && (n.0 as int) < b.interner.strings@.len()
            && crate::pools::assoc_get(tctx.name_to_id@, n) is Some)
    &&& r matches Ok(x) ==> x.1 == pos + 1 && exists|n: InternedString|
        b.interner.text_of(n) == src.token_text(pos) && (n.0 as int) < b.interner.strings@.len()
            && crate::pools::assoc_get(tctx.name_to_id@, n) is Some && b.types@[x.0.0 as int]
            == crate::types::Type::Var(TypeVarId(crate::pools::assoc_get(tctx.name_to_id@, n).unwrap(), None), SpanId(0))
}

/// An upper-case name read as a type on its own: `Int`, `String`, or the data type of
/// that name without arguments.
pub open spec fn named_type_read(src: &Source, pos: int, a: &Pools, b: &Pools, r: Result<(TypeId, usize), String>) -> bool {
    &&& (r is Ok) == (src.token_text(pos) == "Int"@ || src.token_text(pos) == "String"@ || a.interner.strings@.len() < 0xFFFF_FFFE)
    &&& r matches Ok(x) ==> x.1 == pos + 1 && (if src.token_text(pos) == "Int"@ {
        b.types@[x.0.0 as int] is Int
    } else if src.token_text(pos) == "String"@ {
        b.types@[x.0.0 as int] is String
    } else {
        b.types@[x.0.0 as int] matches crate::types::Type::DataType(n, _, l, _) && b.interner.text_of(n) == src.token_text(pos) && l == 0
    })
}

/// `Int` and `String` without arguments are the built-in types; other names are data types.
fn named_type(src: &Source, pos: usize, pools: &mut Pools, args: &Vec<TypeId>) -> (r: Result<TypeId, String>)
    requires
        src.wf(),
        old(pools).wf(),
        pos < src.toks@.len(),
        old(pools).all_valid_types(args@),
    ensures
        extends(old(pools), final(pools)),
        r matches Ok(t) ==> final(pools).valid_type(t),
        (r is Ok) == ((args@.len() == 0 && (src.token_text(pos as int) == "Int"@ || src.token_text(pos as int) == "String"@))
            || old(pools).interner.strings@.len() < 0xFFFF_FFFE),
        args@.len() == 0 && src.token_text(pos as int) == "Int"@ ==> (r matches Ok(t) && final(pools).types@[t.0 as int] is Int),
        args@.len() == 0 && src.token_text(pos as int) == "String"@ ==> (r matches Ok(t) && final(pools).types@[t.0 as int] is String),
        !(args@.len() == 0 && (src.token_text(pos as int) == "Int"@ || src.token_text(pos as int) == "String"@)) ==> (r matches Ok(t)
            ==> (final(pools).types@[t.0 as int] matches crate::types::Type::DataType(n, st, l, _) && final(pools).interner.text_of(n)
            == src.token_text(pos as int) && l == args@.len() && st.0 + l <= final(pools).type_params@.len()
            && final(pools).type_params@.subrange(st.0 as int, st.0 + l) == args@)),
{
    proof {
        reveal_strlit("Int");
        reveal_strlit("String");
        assert("Int"@.len() != "String"@.len());
    }
    if args.len() == 0 && src.token_is(pos, "Int") {
        return Ok(pools.type_int());
    }
    if args.len() == 0 && src.token_is(pos, "String") {
        return Ok(pools.type_string());
    }
    let name = match intern_token(src, pos, pools) {
        Ok(n) => n,
        Err(e) => return Err(e),
    };
    let ghost p1 = *pools;
    let tp_len = pools.type_params.len();
    let r = pools.data_type(name, args.as_slice());
    proof {
        assert(tp_len as int == p1.type_params@.len());
        assert(pools.type_params@.subrange(tp_len as int, tp_len + args@.len()) =~= args@);
        assert(pools.interner == p1.interner);
    }
    Ok(r)
}

/// `atom (-> type)?`, associating to the right.
fn parse_type_expr(src: &Source, pos: usize, pools: &mut Pools, tctx: &TypeVarContext, fuel: usize) -> (r: Result<(TypeId, usize), String>)
    requires
        src.wf(),
        old(pools).wf(),
        pos <= src.toks@.len(),
    ensures
        read_type_ok(src, old(pools), final(pools), pos, r),
    decreases fuel,
{
    if fuel == 0 {
        return Err(src.error(pos, "a less deeply nested type"));
    }
    let (atom, p) = match parse_type_atom(src, pos, pools, tctx, true, fuel - 1) {
        Ok(x) => x,
        Err(e) => return Err(e),
    };
    if src.is(p, TokenKind::Arrow) {
        let (rest, q) = match parse_type_expr(src, p + 1, pools, tctx, fuel - 1) {
            Ok(x) => x,
            Err(e) => return Err(e),
        };
        let t = pools.type_arrow(atom, rest);
        Ok((t, q))
    } else {
        Ok((atom, p))
    }
}

/// A type atom: a variable or constructor, applied to arguments when `with_args` holds,
/// a record type, or a parenthesized type.
fn parse_type_atom(
    src: &Source,
    pos: usize,
    pools: &mut Pools,
    tctx: &TypeVarContext,
    with_args: bool,
    fuel: usize,
) -> (r: Result<(TypeId, usize), String>)
    requires
        src.wf(),
        old(pools).wf(),
        pos <= src.toks@.len(),
    ensures
        read_type_ok(src, old(pools), final(pools), pos, r),
        fuel == 0 ==> (r matches Err(m) && m@ == parse_error_text(src.text@, src.start_at(pos as int), "a less deeply nested type"@)),
        fuel > 0 && !(kind_at(src, pos as int, TokenKind::Lower) || kind_at(src, pos as int, TokenKind::Upper) || kind_at(
            src,
            pos as int,
            TokenKind::LBrace,
        ) || kind_at(src, pos as int, TokenKind::LParen)) ==> (r matches Err(m) && m@ == parse_error_text(
            src.text@,
            src.start_at(pos as int),
            "a type"@,
        )),
        fuel > 0 && !with_args && kind_at(src, pos as int, TokenKind::Lower) ==> type_var_read(src, pos as int, tctx, old(pools), final(pools), r),
        fuel > 0 && !with_args && kind_at(src, pos as int, TokenKind::Upper) ==> named_type_read(src, pos as int, old(pools), final(pools), r),
    decreases fuel,
{
    if fuel == 0 {
        return Err(src.error(pos, "a less deeply nested type"));
    }
    match src.kind(pos) {
        Some(TokenKind::Lower) => {
            let (args, p) = match parse_type_args(src, pos + 1, pools, tctx, with_args, fuel - 1) {
                Ok(x) => x,
                Err(e) => return Err(e),
            };
            let name = match intern_token(src, pos, pools) {
                Ok(n) => n,
                Err(e) => return Err(e),
            };
            match tctx.lookup(name) {
                Some(id) => {
                    if args.len() == 0 {
                        Ok((pools.type_var(id), p))
                    } else {
                        Ok((pools.type_app(id, args.as_slice()), p))
                    }
                },
                None => {
                    if args.len() == 0 {
                        let mut msg = str_to_chars("Unknown type variable: ");
                        let chars = src.chars(pos);
                        push_chars(&mut msg, &chars);
                        Err(chars_to_string(&msg))
                    } else {
                        Ok((pools.data_type(name, args.as_slice()), p))
                    }
                },
            }
        },
        Some(TokenKind::Upper) => {
            let (args, p) = match parse_type_args(src, pos + 1, pools, tctx, with_args, fuel - 1) {
                Ok(x) => x,
                Err(e) => return Err(e),
            };
            match named_type(src, pos, pools, &args) {
                Ok(t) => Ok((t, p)),
                Err(e) => Err(e),
            }
        },
        Some(TokenKind::LBrace) => parse_record_type(src, pos, pools, tctx, fuel - 1),
        Some(TokenKind::LParen) => {
            let (t, p) = match parse_type_expr(src, pos + 1, pools, tctx, fuel - 1) {
                Ok(x) => x,
                Err(e) => return Err(e),
            };
            if src.is(p, TokenKind::RParen) {
                Ok((t, p + 1))
            } else {
                Err(src.error(p, "')'"))
            }
        },
        _ => Err(src.error(pos, "a type")),
    }
}

/// The arguments of a type constructor: atoms without arguments of their own.
fn parse_type_args(
    src: &Source,
    pos: usize,
    pools: &mut Pools,
    tctx: &TypeVarContext,
    with_args: bool,
    fuel: usize,
) -> (r: Result<(Vec<TypeId>, usize), String>)
    requires
        src.wf(),
        old(pools).wf(),
        pos <= src.toks@.len(),
    ensures
        extends(old(pools), final(pools)),
        r matches Ok(x) ==> final(pools).all_valid_types(x.0@) && pos <= x.1 <= src.toks@.len(),
        !with_args ==> (r matches Ok(x) && x.0@.len() == 0 && x.1 == pos) && *final(pools) == *old(pools),
    decreases fuel,
{
    let mut args: Vec<TypeId> = Vec::new();
    let mut p = pos;
    if !with_args {
        return Ok((args, p));
    }
    while fuel > 0 && (src.is(p, TokenKind::Lower) || src.is(p, TokenKind::Upper) || src.is(p, TokenKind::LBrace) || src.is(p, TokenKind::LParen))
        invariant
            src.wf(),
            pools.wf(),
            extends(old(pools), pools),
            pools.all_valid_types(args@),
            pos <= p <= src.toks@.len(),
            with_args,
        decreases src.toks@.len() - p,
    {
        let at_brace = src.is(p, TokenKind::LBrace);
        match parse_type_atom(src, p, pools, tctx, false, fuel - 1) {
            Ok((t, q)) => {
                args.push(t);
                p = q;
            },
            Err(e) => {
                if at_brace {
                    // `{` that does not open a record type ends the arguments
                    // (it opens a function body).
                    break;
                }
                return Err(e);
            },
        }
    }
    Ok((args, p))
}

/// `{ name: type, ... (| rest)? }`; a closed row unless a rest variable is named.
fn parse_record_type(src: &Source, pos: usize, pools: &mut Pools, tctx: &TypeVarContext, fuel: usize) -> (r: Result<(TypeId, usize), String>)
    requires
        src.wf(),
        old(pools).wf(),
        pos < src.toks@.len(),
        src.toks@[pos as int].kind == TokenKind::LBrace,
    ensures
        read_type_ok(src, old(pools), final(pools), pos, r),
    decreases fuel,
{
    let mut fields: Vec<RowField> = Vec::new();
    let mut rest: Option<TypeId> = None;
    let mut p = pos + 1;
    loop
        invariant
            src.wf(),
            pools.wf(),
            extends(old(pools), pools),
            pools.fields_valid(fields@),
            rest matches Some(t) ==> pools.valid_type(t),
            pos < p <= src.toks@.len(),
        decreases src.toks@.len() - p,
    {
        if src.is(p, TokenKind::RBrace) {
            break;
        }
        if src.is(p, TokenKind::Bar) || src.is(p, TokenKind::Ellipsis) {
            if !src.is(p + 1, TokenKind::Lower) {
                return Err(src.error(p + 1, "a row variable"));
            }
            let id = match lookup_type_var(src, p + 1, pools, tctx) {
                Ok(id) => id,
                Err(e) => return Err(e),
            };
            rest = Some(pools.type_var(id));
            p = p + 2;
            if !src.is(p, TokenKind::RBrace) {
                return Err(src.error(p, "'}'"));
            }
            break;
        }
        if !(src.is(p, TokenKind::Lower) && src.is(p + 1, TokenKind::Colon)) {
            return Err(src.error(p, "a field"));
        }
        let name = match intern_token(src, p, pools) {
            Ok(n) => n,
            Err(e) => return Err(e),
        };
        if fuel == 0 {
            return Err(src.error(p, "a less deeply nested type"));
        }
        let (t, q) = match parse_type_expr(src, p + 2, pools, tctx, fuel - 1) {
            Ok(x) => x,
            Err(e) => return Err(e),
        };
        fields.push(RowField { name, field_type: t });
        p = q;
        if src.is(p, TokenKind::Comma) {
            p = p + 1;
        }
    }
    if !src.is(p, TokenKind::RBrace) {
        return Err(src.error(p, "'}'"));
    }
    let rest_type = match rest {
        Some(t) => t,
        None => pools.type_empty_row(),
    };
    let t = pools.type_row(fields.as_slice(), rest_type);
    Ok((t, p + 1))
}

} // verus!

verus! {

/// Whether every character of token `pos` is a letter or `_`.
fn is_alphabetic_name(src: &Source, pos: usize) -> (r: bool)
    requires
        src.wf(),
        pos < src.toks@.len(),
    ensures
        r == forall|k: int| 0 <= k < src.token_text(pos as int).len() ==> is_name_letter(#[trigger] src.token_text(pos as int)[k]),
{
    let chars = src.chars(pos);
    let mut i: usize = 0;
    while i < chars.len()
        invariant
            i <= chars@.len(),
            chars@ == src.token_text(pos as int),
            forall|k: int| 0 <= k < i ==> is_name_letter(#[trigger] chars@[k]),
        decreases chars@.len() - i,
    {
        let c = chars[i];
        if !(('a' <= c && c <= 'z') || ('A' <= c && c <= 'Z') || c == '_') {
            return false;
        }
        i = i + 1;
    }
    true
}

/// A letter or `_`.
pub open spec fn is_name_letter(c: char) -> bool {
    ('a' <= c <= 'z') || ('A' <= c <= 'Z') || c == '_'
}

/// A fresh type variable number, or an error when none is left.
fn take_var_number(src: &Source, pos: usize, pools: &mut Pools) -> (r: Result<usize, String>)
    requires
        src.wf(),
        old(pools).wf(),
    ensures
        extends(old(pools), final(pools)),
        (r is Ok) == (old(pools).next_type_var < usize::MAX),
        r matches Ok(v) ==> v == old(pools).next_type_var && final(pools).next_type_var == v + 1,
        r matches Err(m) ==> *final(pools) == *old(pools) && m@ == parse_error_text(
            src.text@,
            src.start_at(pos as int),
            "fewer type variables"@,
        ),
{
    if pools.next_type_var >= usize::MAX {
        return Err(src.error(pos, "fewer type variables"));
    }
    Ok(pools.take_type_var_number())
}

/// A constructor's component: `(forall a. exists b. type)`, `(type)`, a type variable, a
/// record type, or a constructor name. The universally and existentially quantified
/// variables are returned with the type.
fn parse_component_type(
    src: &Source,
    pos: usize,
    pools: &mut Pools,
    tctx: &TypeVarContext,
    fuel: usize,
) -> (r: Result<(TypeId, Vec<TypeVarId>, Vec<TypeVarId>, usize), String>)
    requires
        src.wf(),
        old(pools).wf(),
        pos <= src.toks@.len(),
    ensures
        extends(old(pools), final(pools)),
        r matches Ok(x) ==> final(pools).valid_type(x.0) && pos < x.3 <= src.toks@.len(),
        r matches Ok(x) ==> fresh_var_numbers(x.1@, x.2@, old(pools).next_type_var as int, final(pools).next_type_var as int),
        !(kind_at(src, pos as int, TokenKind::LParen) && (kind_at(src, pos + 1, TokenKind::Forall)
            || kind_at(src, pos + 1, TokenKind::Exists))) ==> (r matches Ok(x) ==> x.1@.len() == 0 && x.2@.len() == 0),
    decreases fuel,
{
    if fuel == 0 {
        return Err(src.error(pos, "a less deeply nested type"));
    }
    match src.kind(pos) {
        Some(TokenKind::LParen) => {
            if src.is(pos + 1, TokenKind::Forall) || src.is(pos + 1, TokenKind::Exists) {
                let mut universal_vars: Vec<TypeVarId> = Vec::new();
                let mut existential_vars: Vec<TypeVarId> = Vec::new();
                let mut quantified_ctx = tctx.copy();
                let mut p = pos + 1;
                while src.is(p, TokenKind::Forall) || src.is(p, TokenKind::Exists)
                    invariant
                        fuel > 0,
                        src.wf(),
                        pools.wf(),
                        extends(old(pools), pools),
                        pos < p <= src.toks@.len(),
                        fresh_var_numbers(universal_vars@, existential_vars@, old(pools).next_type_var as int, pools.next_type_var as int),
                    decreases src.toks@.len() - p,
                {
                    let universal = src.is(p, TokenKind::Forall);
                    p = p + 1;
                    let ghost p_start = p;
                    while src.is(p, TokenKind::Lower)
                        invariant
                            fuel > 0,
                            src.wf(),
                            pools.wf(),
                            extends(old(pools), pools),
                            pos < p <= src.toks@.len(),
                            p_start <= p,
                            fresh_var_numbers(universal_vars@, existential_vars@, old(pools).next_type_var as int, pools.next_type_var as int),
                        decreases src.toks@.len() - p,
                    {
                        if is_alphabetic_name(src, p) {
                            let name = match intern_token(src, p, pools) {
                                Ok(n) => n,
                                Err(e) => return Err(e),
                            };
                            let id = match take_var_number(src, p, pools) {
                                Ok(id) => id,
                                Err(e) => return Err(e),
                            };
                            let ghost u0 = universal_vars@;
                            let ghost e0 = existential_vars@;
                            if universal {
                                universal_vars.push(TypeVarId::new_named(id, name));
                            } else {
                                existential_vars.push(TypeVarId::new_named(id, name));
                            }
                            proof {
                                assert(u0.len() > 0 ==> u0[u0.len() - 1].0 < id);
                                assert(e0.len() > 0 ==> e0[e0.len() - 1].0 < id);
                            }
                        }
                        p = p + 1;
                    }
                    if !src.is(p, TokenKind::Dot) {
                        return Err(src.error(p, "'.'"));
                    }
                    p = p + 1;
                }
                let mut k: usize = 0;
                while k < universal_vars.len()
                    invariant
                        fuel > 0,
                        k <= universal_vars@.len(),
                    decreases universal_vars@.len() - k,
                {
                    match universal_vars[k].1 {
                        Some(name) => quantified_ctx.bind(name, universal_vars[k].0),
                        None => {},
                    }
                    k = k + 1;
                }
                let mut k2: usize = 0;
                while k2 < existential_vars.len()
                    invariant
                        fuel > 0,
                        k2 <= existential_vars@.len(),
                    decreases existential_vars@.len() - k2,
                {
                    match existential_vars[k2].1 {
                        Some(name) => quantified_ctx.bind(name, existential_vars[k2].0),
                        None => {},
                    }
                    k2 = k2 + 1;
                }
                let (t, q) = match parse_type_expr(src, p, pools, &quantified_ctx, fuel - 1) {
                    Ok(x) => x,
                    Err(e) => return Err(e),
                };
                if !src.is(q, TokenKind::RParen) {
                    return Err(src.error(q, "')'"));
                }
                Ok((t, universal_vars, existential_vars, q + 1))
            } else {
                let (t, q) = match parse_type_expr(src, pos + 1, pools, tctx, fuel - 1) {
                    Ok(x) => x,
                    Err(e) => return Err(e),
                };
                if !src.is(q, TokenKind::RParen) {
                    return Err(src.error(q, "')'"));
                }
                Ok((t, Vec::new(), Vec::new(), q + 1))
            }
        },
        Some(TokenKind::Lower) | Some(TokenKind::Upper) | Some(TokenKind::LBrace) => {
            let (t, q) = match parse_type_atom(src, pos, pools, tctx, false, fuel - 1) {
                Ok(x) => x,
                Err(e) => return Err(e),
            };
            Ok((t, Vec::new(), Vec::new(), q))
        },
        _ => Err(src.error(pos, "a constructor component")),
    }
}

/// The numbers of `u` and of `e` increase, lie in `lo..hi`, and no number is in both.
pub open spec fn fresh_var_numbers(u: Seq<TypeVarId>, e: Seq<TypeVarId>, lo: int, hi: int) -> bool {
    &&& forall|k: int| 0 <= k < u.len() ==> lo <= (#[trigger] u[k]).0 < hi
    &&& forall|k: int| 0 <= k < e.len() ==> lo <= (#[trigger] e[k]).0 < hi
    &&& forall|i: int, j: int| 0 <= i < j < u.len() ==> u[i].0 < u[j].0
    &&& forall|i: int, j: int| 0 <= i < j < e.len() ==> e[i].0 < e[j].0
    &&& forall|i: int, j: int| 0 <= i < u.len() && 0 <= j < e.len() ==> u[i].0 != e[j].0
}

/// The type variables `ids` as type nodes.
fn param_var_types(pools: &mut Pools, ids: &Vec<TypeVarId>) -> (r: Vec<TypeId>)
    requires
        old(pools).wf(),
    ensures
        extends(old(pools), final(pools)),
        final(pools).all_valid_types(r@),
        r@.len() == ids@.len(),
{
    let mut v: Vec<TypeId> = Vec::new();
    let mut i: usize = 0;
    while i < ids.len()
        invariant
            i <= ids@.len(),
            pools.wf(),
            extends(old(pools), pools),
            pools.all_valid_types(v@),
            v@.len() == i,
        decreases ids@.len() - i,
    {
        let t = pools.type_var(ids[i].0);
        v.push(t);
        i = i + 1;
    }
    v
}

/// `data Name params = K components | ...`: registers each constructor's signature.
fn parse_data_def(src: &Source, pos: usize, pools: &mut Pools, tctx: &TypeVarContext, fuel: usize) -> (r: Result<usize, String>)
    requires
        src.wf(),
        old(pools).wf(),
        pos < src.toks@.len(),
    ensures
        extends(old(pools), final(pools)),
        r matches Ok(p) ==> pos < p <= src.toks@.len(),
{
    let mut p = pos + 1;
    if !src.is(p, TokenKind::Upper) {
        return Err(src.error(p, "a type name"));
    }
    let data_name = match intern_token(src, p, pools) {
        Ok(n) => n,
        Err(e) => return Err(e),
    };
    p = p + 1;
    let mut type_params: Vec<InternedString> = Vec::new();
    while src.is(p, TokenKind::Lower)
        invariant
            src.wf(),
            pools.wf(),
            extends(old(pools), pools),
            pos < p <= src.toks@.len(),
        decreases src.toks@.len() - p,
    {
        let name = match intern_token(src, p, pools) {
            Ok(n) => n,
            Err(e) => return Err(e),
        };
        type_params.push(name);
        p = p + 1;
    }
    if !src.is(p, TokenKind::Equals) {
        return Err(src.error(p, "'='"));
    }
    p = p + 1;
    let mut extended_ctx = tctx.copy();
    let mut param_var_ids: Vec<TypeVarId> = Vec::new();
    let mut i: usize = 0;
    while i < type_params.len()
        invariant
            i <= type_params@.len(),
            src.wf(),
            pools.wf(),
            extends(old(pools), pools),
        decreases type_params@.len() - i,
    {
        let id = match take_var_number(src, p, pools) {
            Ok(id) => id,
            Err(e) => return Err(e),
        };
        extended_ctx.bind(type_params[i], id);
        param_var_ids.push(TypeVarId::new_named(id, type_params[i]));
        i = i + 1;
    }
    loop
        invariant
            src.wf(),
            pools.wf(),
            extends(old(pools), pools),
            pos < p <= src.toks@.len(),
        decreases src.toks@.len() - p,
    {
        if !src.is(p, TokenKind::Upper) {
            return Err(src.error(p, "a constructor"));
        }
        let constructor_name = match intern_token(src, p, pools) {
            Ok(n) => n,
            Err(e) => return Err(e),
        };
        p = p + 1;
        let ghost p_start = p;
        let mut parsed_types: Vec<TypeId> = Vec::new();
        let mut all_universal_vars: Vec<TypeVarId> = Vec::new();
        let mut all_existential_vars: Vec<TypeVarId> = Vec::new();
        while src.is(p, TokenKind::LParen) || src.is(p, TokenKind::Lower) || src.is(p, TokenKind::Upper) || src.is(p, TokenKind::LBrace)
            invariant
                src.wf(),
                pools.wf(),
                extends(old(pools), pools),
                pools.all_valid_types(parsed_types@),
                pos < p <= src.toks@.len(),
                p_start <= p,
            decreases src.toks@.len() - p,
        {
            let (t, u, e, q) = match parse_component_type(src, p, pools, &extended_ctx, fuel) {
                Ok(x) => x,
                Err(e) => return Err(e),
            };
            parsed_types.push(t);
            let mut k: usize = 0;
            while k < u.len()
                invariant
                    k <= u@.len(),
                decreases u@.len() - k,
            {
                all_universal_vars.push(u[k]);
                k = k + 1;
            }
            let mut k2: usize = 0;
            while k2 < e.len()
                invariant
                    k2 <= e@.len(),
                decreases e@.len() - k2,
            {
                all_existential_vars.push(e[k2]);
                k2 = k2 + 1;
            }
            p = q;
        }
        if parsed_types.len() == 0 {
            let component_type = pools.type_unit();
            let param_types = param_var_types(pools, &param_var_ids);
            let result_type = pools.data_type(data_name, param_types.as_slice());
            let constructor_type = ConstructorType {
                outer_quantified_vars: crate::pools::copy_vars(&param_var_ids),
                universal_vars: Vec::new(),
                existential_vars: Vec::new(),
                component_type,
                result_type,
            };
            pools.add_constructor(constructor_name, constructor_type);
        } else {
            let component_type = parsed_types[0];
            let param_types = param_var_types(pools, &param_var_ids);
            let final_result = pools.data_type(data_name, param_types.as_slice());
            let mut result_type = final_result;
            let mut j: usize = parsed_types.len();
            while j > 1
                invariant
                    1 <= j <= parsed_types@.len(),
                    pools.wf(),
                    extends(old(pools), pools),
                    pools.all_valid_types(parsed_types@),
                    pools.valid_type(result_type),
                decreases j,
            {
                j = j - 1;
                result_type = pools.type_arrow(parsed_types[j], result_type);
            }
            let constructor_type = ConstructorType {
                outer_quantified_vars: crate::pools::copy_vars(&param_var_ids),
                universal_vars: all_universal_vars,
                existential_vars: all_existential_vars,
                component_type,
                result_type,
            };
            pools.add_constructor(constructor_name, constructor_type);
        }
        if src.is(p, TokenKind::Bar) {
            p = p + 1;
        } else {
            break;
        }
    }
    Ok(p)
}

} // verus!

verus! {

/// What reading an expression guarantees.
pub open spec fn read_expr_ok(src: &Source, a: &Pools, b: &Pools, pos: usize, r: Result<(ExprId, usize), String>) -> bool {
    &&& extends(a, b)
    &&& (r matches Ok(x) ==> b.valid_expr(x.0) && a.exprs@.len() <= x.0.0 && pos < x.1 <= src.toks@.len())
}

/// The token at `pos` is the last one, and a number that fits a machine integer.
pub open spec fn lone_number(src: &Source, pos: int) -> bool {
    &&& kind_at(src, pos, TokenKind::Number)
    &&& pos + 1 == src.toks@.len()
    &&& number_of(src.token_text(pos)) is Some
}

/// `r` read the number at `pos` into one new integer node of `b`, and nothing else of the
/// program in `a` changed.
pub open spec fn number_read(src: &Source, pos: int, a: &Pools, b: &Pools, r: Result<(ExprId, usize), String>) -> bool {
    &&& r matches Ok(x)
    &&& x.1 == pos + 1
    &&& x.0.0 == a.exprs@.len()
    &&& b.exprs@.len() == a.exprs@.len() + 1
    &&& b.exprs@.subrange(0, a.exprs@.len() as int) == a.exprs@
    &&& (b.exprs@[x.0.0 as int] matches Expr::Int(v, _) && v == number_of(src.token_text(pos)).unwrap())
    &&& b.function_implementations == a.function_implementations
    &&& b.globals == a.globals
    &&& b.global_order == a.global_order
}

/// An expression: `let`, `fn`, `match`, or a term with the operators that may follow it.
fn parse_expr(
    src: &Source,
    pos: usize,
    pools: &mut Pools,
    ctx: &ParseContext,
    tctx: &TypeVarContext,
    fuel: usize,
) -> (r: Result<(ExprId, usize), String>)
    requires
        src.wf(),
        old(pools).wf(),
        pos <= src.toks@.len(),
    ensures
        read_expr_ok(src, old(pools), final(pools), pos, r),
        fuel > 4 && lone_number(src, pos as int) ==> number_read(src, pos as int, old(pools), final(pools), r),
    decreases fuel,
{
    if fuel == 0 {
        return Err(src.error(pos, "a less deeply nested expression"));
    }
    match src.kind(pos) {
        Some(TokenKind::Let) => parse_let_expr(src, pos, pools, ctx, tctx, fuel - 1),
        Some(TokenKind::Fn) => parse_abstraction(src, pos, pools, ctx, tctx, fuel - 1),
        Some(TokenKind::Match) => parse_match_expr(src, pos, pools, ctx, tctx, fuel - 1),
        _ => parse_op_expr(src, pos, pools, ctx, tctx, fuel - 1),
    }
}

/// `let name = value in body`.
fn parse_let_expr(
    src: &Source,
    pos: usize,
    pools: &mut Pools,
    ctx: &ParseContext,
    tctx: &TypeVarContext,
    fuel: usize,
) -> (r: Result<(ExprId, usize), String>)
    requires
        src.wf(),
        old(pools).wf(),
        pos < src.toks@.len(),
    ensures
        read_expr_ok(src, old(pools), final(pools), pos, r),
    decreases fuel,
{
    if fuel == 0 {
        return Err(src.error(pos, "a less deeply nested expression"));
    }
    if !src.is(pos + 1, TokenKind::Lower) {
        return Err(src.error(pos + 1, "a name"));
    }
    let name = match intern_token(src, pos + 1, pools) {
        Ok(n) => n,
        Err(e) => return Err(e),
    };
    if !src.is(pos + 2, TokenKind::Equals) {
        return Err(src.error(pos + 2, "'='"));
    }
    let (value, p) = match parse_expr(src, pos + 3, pools, ctx, tctx, fuel - 1) {
        Ok(x) => x,
        Err(e) => return Err(e),
    };
    if !src.is(p, TokenKind::In) {
        return Err(src.error(p, "'in'"));
    }
    let inner = ctx.with_var(name);
    let (body, q) = match parse_expr(src, p + 1, pools, &inner, tctx, fuel - 1) {
        Ok(x) => x,
        Err(e) => return Err(e),
    };
    let span = span_of(src, pos, q, pools);
    let id = pools.let_expr_span(value, body, name, span);
    Ok((id, q))
}

/// `fn x y ... => body`: one lambda per parameter.
fn parse_abstraction(
    src: &Source,
    pos: usize,
    pools: &mut Pools,
    ctx: &ParseContext,
    tctx: &TypeVarContext,
    fuel: usize,
) -> (r: Result<(ExprId, usize), String>)
    requires
        src.wf(),
        old(pools).wf(),
        pos < src.toks@.len(),
    ensures
        read_expr_ok(src, old(pools), final(pools), pos, r),
    decreases fuel,
{
    if fuel == 0 {
        return Err(src.error(pos, "a less deeply nested expression"));
    }
    let mut param_names: Vec<InternedString> = Vec::new();
    let mut p = pos + 1;
    while src.is(p, TokenKind::Lower)
        invariant
            fuel > 0,
            src.wf(),
            pools.wf(),
            extends(old(pools), pools),
            pos < p <= src.toks@.len(),
        decreases src.toks@.len() - p,
    {
        let name = match intern_token(src, p, pools) {
            Ok(n) => n,
            Err(e) => return Err(e),
        };
        param_names.push(name);
        p = p + 1;
    }
    if param_names.len() == 0 {
        return Err(src.error(p, "a parameter"));
    }
    if !src.is(p, TokenKind::FatArrow) {
        return Err(src.error(p, "'=>'"));
    }
    let mut inner = ParseContext { name_stack: copy_names(&ctx.name_stack) };
    let mut i: usize = 0;
    while i < param_names.len()
        invariant
            fuel > 0,
            i <= param_names@.len(),
        decreases param_names@.len() - i,
    {
        inner.name_stack.push(param_names[i]);
        i = i + 1;
    }
    let (body, q) = match parse_expr(src, p + 1, pools, &inner, tctx, fuel - 1) {
        Ok(x) => x,
        Err(e) => return Err(e),
    };
    let span = span_of(src, pos, q, pools);
    let mut result = body;
    let mut j: usize = param_names.len();
    while j > 0
        invariant
            fuel > 0,
            j <= param_names@.len(),
            pools.wf(),
            extends(old(pools), pools),
            pools.valid_expr(result),
            old(pools).exprs@.len() <= result.0,
        decreases j,
    {
        j = j - 1;
        result = pools.lambda_span(result, param_names[j], span);
    }
    Ok((result, q))
}

/// `match e with | pattern -> body ...`; the cases are stored next to one another.
fn parse_match_expr(
    src: &Source,
    pos: usize,
    pools: &mut Pools,
    ctx: &ParseContext,
    tctx: &TypeVarContext,
    fuel: usize,
) -> (r: Result<(ExprId, usize), String>)
    requires
        src.wf(),
        old(pools).wf(),
        pos < src.toks@.len(),
    ensures
        read_expr_ok(src, old(pools), final(pools), pos, r),
    decreases fuel,
{
    if fuel == 0 {
        return Err(src.error(pos, "a less deeply nested expression"));
    }
    let (scrutinee, p0) = match parse_expr(src, pos + 1, pools, ctx, tctx, fuel - 1) {
        Ok(x) => x,
        Err(e) => return Err(e),
    };
    if !src.is(p0, TokenKind::With) {
        return Err(src.error(p0, "'with'"));
    }
    let mut p = p0 + 1;
    let mut cases: Vec<MatchCase> = Vec::new();
    while src.is(p, TokenKind::Bar)
        invariant
            fuel > 0,
            src.wf(),
            pools.wf(),
            extends(old(pools), pools),
            pools.valid_expr(scrutinee),
            pos < p <= src.toks@.len(),
            forall|k: int| 0 <= k < cases@.len() ==> (#[trigger] cases@[k]).body.0 < pools.exprs@.len() && pools.pattern_ok(cases@[k].pattern),
        decreases src.toks@.len() - p,
    {
        let (pattern, q) = match parse_pattern(src, p + 1, pools, fuel - 1) {
            Ok(x) => x,
            Err(e) => return Err(e),
        };
        if !(src.is(q, TokenKind::Arrow) || src.is(q, TokenKind::FatArrow)) {
            return Err(src.error(q, "'->'"));
        }
        let mut vars: Vec<InternedString> = Vec::new();
        let pf = pools.pattern_fuel();
        collect_pattern_variables(pattern, pools, &mut vars, pf);
        let mut inner = ParseContext { name_stack: copy_names(&ctx.name_stack) };
        let mut i: usize = 0;
        while i < vars.len()
            invariant
                fuel > 0,
                i <= vars@.len(),
            decreases vars@.len() - i,
        {
            inner.name_stack.push(vars[i]);
            i = i + 1;
        }
        let (body, q2) = match parse_expr(src, q + 1, pools, &inner, tctx, fuel - 1) {
            Ok(x) => x,
            Err(e) => return Err(e),
        };
        cases.push(MatchCase { pattern, body });
        p = q2;
    }
    if cases.len() == 0 {
        return Err(src.error(p, "'|'"));
    }
    let start_id = PatternId(pools.patterns.len());
    let mut k: usize = 0;
    while k < cases.len()
        invariant
            fuel > 0,
            k <= cases@.len(),
            pools.wf(),
            extends(old(pools), pools),
            pools.valid_expr(scrutinee),
            start_id.0 + k == pools.patterns@.len(),
            forall|j: int| 0 <= j < cases@.len() ==> (#[trigger] cases@[j]).body.0 < pools.exprs@.len() && pools.pattern_ok(cases@[j].pattern),
            forall|j: int| start_id.0 <= j < pools.patterns@.len() ==> (#[trigger] pools.patterns@[j]).body.0 < pools.exprs@.len(),
        decreases cases@.len() - k,
    {
        let c = cases[k];
        pools.alloc_pattern(c.pattern, c.body);
        k = k + 1;
    }
    let span = span_of(src, pos, p, pools);
    let id = pools.match_expr_span(scrutinee, start_id, cases.len(), span);
    Ok((id, p))
}

/// The names a pattern binds, in the order they are bound, looking `fuel` levels deep.
pub open spec fn pattern_vars(pools: &Pools, p: Pattern, fuel: nat) -> Seq<InternedString>
    decreases fuel, 0nat, 0int,
{
    if fuel == 0 {
        Seq::empty()
    } else {
        match p {
            Pattern::Variable(_, name, _) => seq![name],
            Pattern::Constructor(_, start, len, _) => nested_vars(
                pools,
                pools.nested_patterns@.subrange(start.0 as int, start.0 + len),
                len as int,
                (fuel - 1) as nat,
            ),
            Pattern::Record(start, len, spread, _) => field_pattern_vars(
                pools,
                pools.record_pattern_fields@.subrange(start.0 as int, start.0 + len),
                len as int,
                (fuel - 1) as nat,
            ) + match spread {
                Some(sp) => match sp.name {
                    Some(n) => seq![n],
                    None => Seq::empty(),
                },
                None => Seq::empty(),
            },
            _ => Seq::empty(),
        }
    }
}

/// The names bound by the first `n` of some nested patterns.
pub open spec fn nested_vars(pools: &Pools, ps: Seq<Pattern>, n: int, fuel: nat) -> Seq<InternedString>
    decreases fuel, 1nat, n,
{
    if n <= 0 {
        Seq::empty()
    } else {
        nested_vars(pools, ps, n - 1, fuel) + pattern_vars(pools, ps[n - 1], fuel)
    }
}

/// The names bound by the patterns of the first `n` of some record pattern fields.
pub open spec fn field_pattern_vars(pools: &Pools, fs: Seq<RecordPatternField>, n: int, fuel: nat) -> Seq<InternedString>
    decreases fuel, 1nat, n,
{
    if n <= 0 {
        Seq::empty()
    } else {
        field_pattern_vars(pools, fs, n - 1, fuel) + pattern_vars(pools, fs[n - 1].pattern, fuel)
    }
}

/// The names a pattern binds, in the order they are bound.
fn collect_pattern_variables(pattern: Pattern, pools: &Pools, vars: &mut Vec<InternedString>, fuel: usize)
    requires
        pools.wf(),
        pools.pattern_ok(pattern),
    ensures
        final(vars)@ == old(vars)@ + pattern_vars(pools, pattern, fuel as nat),
    decreases fuel,
{
    if fuel == 0 {
        assert(old(vars)@ + pattern_vars(pools, pattern, fuel as nat) =~= old(vars)@);
        return ;
    }
    match pattern {
        Pattern::Variable(_, var_name, _) => {
            vars.push(var_name);
        },
        Pattern::Constructor(_, start_id, length, _) => {
            if length > 0 {
                let nested = pools.get_nested_patterns(start_id.0, length);
                let mut i: usize = 0;
                while i < nested.len()
                    invariant
                        fuel > 0,
                        i <= nested@.len(),
                        pools.wf(),
                        nested@ == pools.nested_patterns@.subrange(start_id.0 as int, start_id.0 + length),
                        start_id.0 + length <= pools.nested_patterns@.len(),
                        vars@ == old(vars)@ + nested_vars(pools, nested@, i as int, (fuel - 1) as nat),
                    decreases nested@.len() - i,
                {
                    assert(nested@[i as int] == pools.nested_patterns@[start_id.0 + i]);
                    collect_pattern_variables(nested[i], pools, vars, fuel - 1);
                    i = i + 1;
                    assert(vars@ =~= old(vars)@ + nested_vars(pools, nested@, i as int, (fuel - 1) as nat));
                }
            } else {
                assert(old(vars)@ + pattern_vars(pools, pattern, fuel as nat) =~= old(vars)@);
            }
        },
        Pattern::Record(start, len, spread, _) => {
            let fields = pools.get_record_pattern_fields(start.0, len);
            let mut i: usize = 0;
            while i < fields.len()
                invariant
                    fuel > 0,
                    i <= fields@.len(),
                    pools.wf(),
                    fields@ == pools.record_pattern_fields@.subrange(start.0 as int, start.0 + len),
                    start.0 + len <= pools.record_pattern_fields@.len(),
                    vars@ == old(vars)@ + field_pattern_vars(pools, fields@, i as int, (fuel - 1) as nat),
                decreases fields@.len() - i,
            {
                assert(fields@[i as int] == pools.record_pattern_fields@[start.0 + i]);
                collect_pattern_variables(fields[i].pattern, pools, vars, fuel - 1);
                i = i + 1;
                assert(vars@ =~= old(vars)@ + field_pattern_vars(pools, fields@, i as int, (fuel - 1) as nat));
            }
            match spread {
                Some(s) => match s.name {
                    Some(n) => {
                        vars.push(n);
                    },
                    None => {},
                },
                None => {},
            }
            assert(vars@ =~= old(vars)@ + pattern_vars(pools, pattern, fuel as nat));
        },
        _ => {
            assert(old(vars)@ + pattern_vars(pools, pattern, fuel as nat) =~= old(vars)@);
        },
    }
}

/// What reading a pattern guarantees.
pub open spec fn read_pattern_ok(src: &Source, a: &Pools, b: &Pools, pos: usize, r: Result<(Pattern, usize), String>) -> bool {
    &&& extends(a, b)
    &&& (r matches Ok(x) ==> b.pattern_ok(x.0) && pos < x.1 <= src.toks@.len())
}

/// A pattern: `head :: tail`, a constructor with argument patterns, or a pattern atom.
fn parse_pattern(src: &Source, pos: usize, pools: &mut Pools, fuel: usize) -> (r: Result<(Pattern, usize), String>)
    requires
        src.wf(),
        old(pools).wf(),
        pos <= src.toks@.len(),
    ensures
        read_pattern_ok(src, old(pools), final(pools), pos, r),
    decreases fuel,
{
    if fuel == 0 {
        return Err(src.error(pos, "a less deeply nested pattern"));
    }
    if src.is(pos, TokenKind::Upper) && !src.is(pos + 1, TokenKind::ConsOp) {
        let name = match intern_token(src, pos, pools) {
            Ok(n) => n,
            Err(e) => return Err(e),
        };
        let mut nested: Vec<Pattern> = Vec::new();
        let mut p = pos + 1;
        while src.is(p, TokenKind::LParen) || src.is(p, TokenKind::Lower) || src.is(p, TokenKind::Underscore)
            || src.is(p, TokenKind::Number) || src.is(p, TokenKind::Str) || src.is(p, TokenKind::Upper) || src.is(p, TokenKind::LBrace)
            invariant
                fuel > 0,
                src.wf(),
                pools.wf(),
                extends(old(pools), pools),
                pos < p <= src.toks@.len(),
                forall|k: int| 0 <= k < nested@.len() ==> pools.pattern_ok(#[trigger] nested@[k]),
            decreases src.toks@.len() - p,
        {
            let (pat, q) = match parse_pattern_atom(src, p, pools, fuel - 1) {
                Ok(x) => x,
                Err(e) => return Err(e),
            };
            nested.push(pat);
            p = q;
        }
        let span = span_of(src, pos, p, pools);
        if nested.len() == 0 {
            return Ok((Pattern::Constructor(name, PatternId(0), 0, span), p));
        }
        let (start_id, length) = pools.alloc_nested_patterns(nested.as_slice());
        return Ok((Pattern::Constructor(name, start_id, length, span), p));
    }
    let (head, p) = match parse_pattern_atom(src, pos, pools, fuel - 1) {
        Ok(x) => x,
        Err(e) => return Err(e),
    };
    if src.is(p, TokenKind::ConsOp) {
        let (tail, q) = match parse_pattern(src, p + 1, pools, fuel - 1) {
            Ok(x) => x,
            Err(e) => return Err(e),
        };
        let cons_name = match intern_text(pools, "Cons") {
            Ok(n) => n,
            Err(e) => return Err(e),
        };
        let mut nested: Vec<Pattern> = Vec::new();
        nested.push(head);
        nested.push(tail);
        let span = span_of(src, pos, q, pools);
        let (start_id, length) = pools.alloc_nested_patterns(nested.as_slice());
        Ok((Pattern::Constructor(cons_name, start_id, length, span), q))
    } else {
        Ok((head, p))
    }
}

/// A pattern atom: `(pattern)`, a variable, `_`, a number, a string, a constructor
/// without arguments, or a record pattern.
fn parse_pattern_atom(src: &Source, pos: usize, pools: &mut Pools, fuel: usize) -> (r: Result<(Pattern, usize), String>)
    requires
        src.wf(),
        old(pools).wf(),
        pos <= src.toks@.len(),
    ensures
        read_pattern_ok(src, old(pools), final(pools), pos, r),
    decreases fuel,
{
    if fuel == 0 {
        return Err(src.error(pos, "a less deeply nested pattern"));
    }
    match src.kind(pos) {
        Some(TokenKind::LParen) => {
            let (pat, p) = match parse_pattern(src, pos + 1, pools, fuel - 1) {
                Ok(x) => x,
                Err(e) => return Err(e),
            };
            if !src.is(p, TokenKind::RParen) {
                return Err(src.error(p, "')'"));
            }
            Ok((pat, p + 1))
        },
        Some(TokenKind::Lower) => {
            let name = match intern_token(src, pos, pools) {
                Ok(n) => n,
                Err(e) => return Err(e),
            };
            let span = span_of(src, pos, pos + 1, pools);
            Ok((Pattern::Variable(DeBruijnIndex::new(0), name, span), pos + 1))
        },
        Some(TokenKind::Underscore) => {
            let span = span_of(src, pos, pos + 1, pools);
            Ok((Pattern::Wildcard(span), pos + 1))
        },
        Some(TokenKind::Number) => {
            let n = match number_value(src, pos) {
                Some(n) => n,
                None => return Err(src.error(pos, "a number that fits a machine integer")),
            };
            let span = span_of(src, pos, pos + 1, pools);
            Ok((Pattern::Int(n, span), pos + 1))
        },
        Some(TokenKind::Str) => {
            let content = inner_chars(src, pos);
            let s = match pools.intern_chars(&content) {
                Some(s) => s,
                None => return Err(src.error(pos, "fewer distinct names")),
            };
            let span = span_of(src, pos, pos + 1, pools);
            Ok((Pattern::String(s, span), pos + 1))
        },
        Some(TokenKind::Upper) => {
            let name = match intern_token(src, pos, pools) {
                Ok(n) => n,
                Err(e) => return Err(e),
            };
            let span = span_of(src, pos, pos + 1, pools);
            Ok((Pattern::Constructor(name, PatternId(0), 0, span), pos + 1))
        },
        Some(TokenKind::LBrace) => parse_record_pattern(src, pos, pools, fuel - 1),
        _ => Err(src.error(pos, "a pattern")),
    }
}

/// `{ name: pattern, ..., ...rest }`.
fn parse_record_pattern(src: &Source, pos: usize, pools: &mut Pools, fuel: usize) -> (r: Result<(Pattern, usize), String>)
    requires
        src.wf(),
        old(pools).wf(),
        pos < src.toks@.len(),
    ensures
        read_pattern_ok(src, old(pools), final(pools), pos, r),
    decreases fuel,
{
    if fuel == 0 {
        return Err(src.error(pos, "a less deeply nested pattern"));
    }
    let mut fields: Vec<RecordPatternField> = Vec::new();
    let mut spread: Option<Spread> = None;
    let mut p = pos + 1;
    loop
        invariant
            fuel > 0,
            src.wf(),
            pools.wf(),
            extends(old(pools), pools),
            pos < p <= src.toks@.len(),
            forall|k: int| 0 <= k < fields@.len() ==> pools.pattern_ok(#[trigger] fields@[k].pattern),
        decreases src.toks@.len() - p,
    {
        if src.is(p, TokenKind::RBrace) {
            break;
        }
        if src.is(p, TokenKind::Ellipsis) {
            if src.is(p + 1, TokenKind::Lower) {
                let n = match intern_token(src, p + 1, pools) {
                    Ok(n) => n,
                    Err(e) => return Err(e),
                };
                spread = Some(Spread { name: Some(n) });
                p = p + 2;
            } else {
                spread = Some(Spread { name: None });
                p = p + 1;
            }
            break;
        }
        if !(src.is(p, TokenKind::Lower) && src.is(p + 1, TokenKind::Colon)) {
            return Err(src.error(p, "a field pattern"));
        }
        let name = match intern_token(src, p, pools) {
            Ok(n) => n,
            Err(e) => return Err(e),
        };
        let (pat, q) = match parse_pattern(src, p + 2, pools, fuel - 1) {
            Ok(x) => x,
            Err(e) => return Err(e),
        };
        fields.push(RecordPatternField { name, pattern: pat });
        p = q;
        if src.is(p, TokenKind::Comma) {
            p = p + 1;
        }
    }
    if !src.is(p, TokenKind::RBrace) {
        return Err(src.error(p, "'}'"));
    }
    let span = span_of(src, pos, p + 1, pools);
    if fields.len() == 0 {
        return Ok((Pattern::Record(FieldId(0), 0, spread, span), p + 1));
    }
    let start = pools.alloc_record_pattern_fields(fields.as_slice());
    Ok((Pattern::Record(start, fields.len(), spread, span), p + 1))
}

} // verus!

verus! {

/// A term followed by the operator that comes after it, if any.
fn parse_op_expr(
    src: &Source,
    pos: usize,
    pools: &mut Pools,
    ctx: &ParseContext,
    tctx: &TypeVarContext,
    fuel: usize,
) -> (r: Result<(ExprId, usize), String>)
    requires
        src.wf(),
        old(pools).wf(),
        pos <= src.toks@.len(),
    ensures
        read_expr_ok(src, old(pools), final(pools), pos, r),
        fuel > 3 && lone_number(src, pos as int) ==> number_read(src, pos as int, old(pools), final(pools), r),
    decreases fuel,
{
    if fuel == 0 {
        return Err(src.error(pos, "a less deeply nested expression"));
    }
    let t_end = match scan_term(src, pos) {
        Some(p) => p,
        None => return Err(src.error(pos, "an expression")),
    };
    match src.kind(t_end) {
        Some(TokenKind::PipeOp) => parse_pipe_expr(src, pos, pools, ctx, tctx, fuel - 1),
        Some(TokenKind::ComposeOp) => parse_compose_expr(src, pos, t_end, pools, ctx, tctx, fuel - 1),
        Some(TokenKind::ApplyOp) => {
            let (func, p) = match parse_term(src, pos, pools, ctx, tctx, fuel - 1) {
                Ok(x) => x,
                Err(e) => return Err(e),
            };
            if !src.is(p, TokenKind::ApplyOp) {
                return Err(src.error(p, "'<$>'"));
            }
            let (arg, q) = match parse_expr(src, p + 1, pools, ctx, tctx, fuel - 1) {
                Ok(x) => x,
                Err(e) => return Err(e),
            };
            let span = span_of(src, pos, q, pools);
            Ok((pools.call_span(func, arg, span), q))
        },
        Some(TokenKind::ConsOp) => {
            if scan_atom(src, pos) == Some(t_end) {
                let (head, p) = match parse_atom(src, pos, pools, ctx, tctx, fuel - 1) {
                    Ok(x) => x,
                    Err(e) => return Err(e),
                };
                if !src.is(p, TokenKind::ConsOp) {
                    return Err(src.error(p, "'::'"));
                }
                let (tail, q) = match parse_expr(src, p + 1, pools, ctx, tctx, fuel - 1) {
                    Ok(x) => x,
                    Err(e) => return Err(e),
                };
                let cons_name = match intern_text(pools, "Cons") {
                    Ok(n) => n,
                    Err(e) => return Err(e),
                };
                let span = span_of(src, pos, q, pools);
                let applied = pools.construct_span(cons_name, head, span);
                Ok((pools.call_span(applied, tail, span), q))
            } else {
                parse_term(src, pos, pools, ctx, tctx, fuel - 1)
            }
        },
        Some(TokenKind::Lt) => {
            if is_ternary_angle(src, t_end) {
                parse_ternary_angle_expr(src, pos, pools, ctx, tctx, fuel - 1)
            } else if is_angle_apply(src, t_end) {
                parse_angle_apply_expr(src, pos, pools, ctx, tctx, fuel - 1)
            } else {
                parse_term(src, pos, pools, ctx, tctx, fuel - 1)
            }
        },
        Some(TokenKind::Bar) => {
            if is_pipe_angle(src, t_end) {
                parse_pipe_angle_expr(src, pos, pools, ctx, tctx, fuel - 1)
            } else {
                parse_term(src, pos, pools, ctx, tctx, fuel - 1)
            }
        },
        _ => parse_term(src, pos, pools, ctx, tctx, fuel - 1),
    }
}

/// `a |> f |> g ...`: each stage is applied to what the stages before it produce.
fn parse_pipe_expr(
    src: &Source,
    pos: usize,
    pools: &mut Pools,
    ctx: &ParseContext,
    tctx: &TypeVarContext,
    fuel: usize,
) -> (r: Result<(ExprId, usize), String>)
    requires
        src.wf(),
        old(pools).wf(),
        pos <= src.toks@.len(),
    ensures
        read_expr_ok(src, old(pools), final(pools), pos, r),
    decreases fuel,
{
    if fuel == 0 {
        return Err(src.error(pos, "a less deeply nested expression"));
    }
    let (left, p0) = match parse_term(src, pos, pools, ctx, tctx, fuel - 1) {
        Ok(x) => x,
        Err(e) => return Err(e),
    };
    let mut stages: Vec<ExprId> = Vec::new();
    let mut p = p0;
    while src.is(p, TokenKind::PipeOp)
        invariant
            fuel > 0,
            src.wf(),
            pools.wf(),
            extends(old(pools), pools),
            pools.valid_expr(left),
            old(pools).exprs@.len() <= left.0,
            forall|k: int| 0 <= k < stages@.len() ==> pools.valid_expr(#[trigger] stages@[k]),
            pos < p <= src.toks@.len(),
        decreases src.toks@.len() - p,
    {
        let q = p + 1;
        let is_stage = match scan_term(src, q) {
            Some(e) => src.is(e, TokenKind::PipeOp),
            None => false,
        };
        if is_stage {
            let (t, e) = match parse_term(src, q, pools, ctx, tctx, fuel - 1) {
                Ok(x) => x,
                Err(e) => return Err(e),
            };
            stages.push(t);
            p = e;
        } else {
            let (t, e) = match parse_expr(src, q, pools, ctx, tctx, fuel - 1) {
                Ok(x) => x,
                Err(e) => return Err(e),
            };
            stages.push(t);
            p = e;
            break;
        }
    }
    if stages.len() == 0 {
        return Err(src.error(p, "'|>'"));
    }
    let span = span_of(src, pos, p, pools);
    let id = build_pipe(pools, left, &stages, 0, span);
    Ok((id, p))
}

/// Node `id` is the call of `f` on `a` at `span`.
pub open spec fn call_at(p: &Pools, id: ExprId, f: ExprId, a: ExprId, span: SpanId) -> bool {
    id.0 < p.exprs@.len() && p.exprs@[id.0 as int] == Expr::Call(f, a, span)
}

/// Node `r` is the pipe of `left` through `stages[from..]`, as `build_pipe` lays it out.
pub open spec fn is_pipe(p: &Pools, r: ExprId, left: ExprId, stages: Seq<ExprId>, from: int, span: SpanId) -> bool
    decreases stages.len() - from,
{
    let n = stages.len() - from;
    if n <= 0 {
        false
    } else if n == 1 {
        call_at(p, r, stages[from], left, span)
    } else {
        exists|inner: ExprId, next: ExprId|
            #![trigger call_at(p, inner, stages[from], left, span), call_at(p, next, stages[from + 1], inner, span)]
            call_at(p, inner, stages[from], left, span) && call_at(p, next, stages[from + 1], inner, span) && if n == 2 {
                r == next
            } else if n == 3 {
                call_at(p, r, stages[from + 2], next, span)
            } else {
                exists|rest: ExprId| #[trigger] call_at(p, r, rest, next, span) && is_pipe(p, rest, stages[from + 2], stages, from + 3, span)
            }
    }
}

proof fn lemma_is_pipe_grow(a: &Pools, b: &Pools, r: ExprId, left: ExprId, stages: Seq<ExprId>, from: int, span: SpanId)
    requires
        a.grows_to(b),
        is_pipe(a, r, left, stages, from, span),
    ensures
        is_pipe(b, r, left, stages, from, span),
    decreases stages.len() - from,
{
    let n = stages.len() - from;
    if n == 1 {
        assert(b.exprs@[r.0 as int] == a.exprs@[r.0 as int]);
    } else {
        let (inner, next) = choose|inner: ExprId, next: ExprId|
            #![trigger call_at(a, inner, stages[from], left, span), call_at(a, next, stages[from + 1], inner, span)]
            call_at(a, inner, stages[from], left, span) && call_at(a, next, stages[from + 1], inner, span) && if n == 2 {
                r == next
            } else if n == 3 {
                call_at(a, r, stages[from + 2], next, span)
            } else {
                exists|rest: ExprId| #[trigger] call_at(a, r, rest, next, span) && is_pipe(a, rest, stages[from + 2], stages, from + 3, span)
            };
        assert(b.exprs@[inner.0 as int] == a.exprs@[inner.0 as int]);
        assert(b.exprs@[next.0 as int] == a.exprs@[next.0 as int]);
        assert(call_at(b, inner, stages[from], left, span) && call_at(b, next, stages[from + 1], inner, span));
        if n == 3 {
            assert(b.exprs@[r.0 as int] == a.exprs@[r.0 as int]);
        } else if n > 3 {
            let rest = choose|rest: ExprId| #[trigger] call_at(a, r, rest, next, span) && is_pipe(a, rest, stages[from + 2], stages, from + 3, span);
            assert(b.exprs@[r.0 as int] == a.exprs@[r.0 as int]);
            lemma_is_pipe_grow(a, b, rest, stages[from + 2], stages, from + 3, span);
            assert(call_at(b, r, rest, next, span));
        }
    }
}

/// The pipe `left |> stages[from] |> ...`: with one stage it is applied to `left`; with two,
/// the second is applied to the first applied to `left`; with more, the pipe of the rest
/// (led by the third stage) is applied to the second applied to the first applied to `left`.
fn build_pipe(pools: &mut Pools, left: ExprId, stages: &Vec<ExprId>, from: usize, span: SpanId) -> (r: ExprId)
    requires
        old(pools).wf(),
        old(pools).valid_expr(left),
        forall|k: int| 0 <= k < stages@.len() ==> old(pools).valid_expr(#[trigger] stages@[k]),
        from < stages@.len(),
    ensures
        extends(old(pools), final(pools)),
        final(pools).valid_expr(r),
        old(pools).exprs@.len() <= r.0,
        is_pipe(final(pools), r, left, stages@, from as int, span),
    decreases stages@.len() - from,
{
    let n = stages.len() - from;
    if n == 1 {
        pools.call_span(stages[from], left, span)
    } else if n == 2 {
        let inner = pools.call_span(stages[from], left, span);
        let r = pools.call_span(stages[from + 1], inner, span);
        assert(call_at(pools, inner, stages@[from as int], left, span));
        assert(call_at(pools, r, stages@[from + 1], inner, span));
        r
    } else {
        let inner = pools.call_span(stages[from], left, span);
        let next = pools.call_span(stages[from + 1], inner, span);
        let ghost mid = *pools;
        let rest = if n == 3 {
            stages[from + 2]
        } else {
            build_pipe(pools, stages[from + 2], stages, from + 3, span)
        };
        let ghost before = *pools;
        let r = pools.call_span(rest, next, span);
        proof {
            Pools::lemma_grows_trans(&mid, &before, &*pools);
            assert(pools.exprs@[inner.0 as int] == mid.exprs@[inner.0 as int]);
            assert(pools.exprs@[next.0 as int] == mid.exprs@[next.0 as int]);
            assert(call_at(pools, inner, stages@[from as int], left, span));
            assert(call_at(pools, next, stages@[from + 1], inner, span));
            assert(call_at(pools, r, rest, next, span));
            if n > 3 {
                lemma_is_pipe_grow(&before, &*pools, rest, stages@[from + 2], stages@, from + 3, span);
            }
        }
        r
    }
}

/// `f <> g`: the function taking `x` to `f (g x)`.
fn parse_compose_expr(
    src: &Source,
    pos: usize,
    t_end: usize,
    pools: &mut Pools,
    ctx: &ParseContext,
    tctx: &TypeVarContext,
    fuel: usize,
) -> (r: Result<(ExprId, usize), String>)
    requires
        src.wf(),
        old(pools).wf(),
        pos <= src.toks@.len(),
    ensures
        read_expr_ok(src, old(pools), final(pools), pos, r),
        r matches Ok(x) ==> composed(old(pools), final(pools), x.0),
    decreases fuel,
{
    if fuel == 0 {
        return Err(src.error(pos, "a less deeply nested expression"));
    }
    let x_name = match intern_text(pools, "_compose_x") {
        Ok(n) => n,
        Err(e) => return Err(e),
    };
    let ghost after_intern = *pools;
    let inner = ctx.with_var(x_name);
    let (left_func, p) = match parse_term(src, pos, pools, &inner, tctx, fuel - 1) {
        Ok(x) => x,
        Err(e) => return Err(e),
    };
    if !src.is(p, TokenKind::ComposeOp) {
        return Err(src.error(p, "'<>'"));
    }
    let (right_func, q) = match parse_expr(src, p + 1, pools, &inner, tctx, fuel - 1) {
        Ok(x) => x,
        Err(e) => return Err(e),
    };
    let span = span_of(src, pos, q, pools);
    let x_var = pools.expr_var_span(DeBruijnIndex::new(0), x_name, span);
    let g_x = pools.call_span(right_func, x_var, span);
    let f_g_x = pools.call_span(left_func, g_x, span);
    let ghost before_lambda = *pools;
    let id = pools.lambda_span(f_g_x, x_name, span);
    proof {
        assert(extends(&after_intern, &*pools)) by {
            lemma_extends_trans(&after_intern, &before_lambda, &*pools);
        }
        reveal_strlit("_compose_x");
        assert(after_intern.interner.text_of(x_name) == "_compose_x"@);
        assert("_compose_x"@.len() == 10);
        assert((x_name.0 as int) < after_intern.interner.strings@.len());
        assert(pools.interner.strings@[x_name.0 as int] == after_intern.interner.strings@[x_name.0 as int]);
        assert(pools.exprs@[f_g_x.0 as int] == before_lambda.exprs@[f_g_x.0 as int]);
        assert(pools.exprs@[g_x.0 as int] == before_lambda.exprs@[g_x.0 as int]);
        assert(pools.exprs@[x_var.0 as int] == before_lambda.exprs@[x_var.0 as int]);
    }
    Ok((id, q))
}

/// Node `id` of `b` is `fn _compose_x => f (g _compose_x)` for the operands `f <> g`, the
/// right operand `g` applied to the bound variable first and the left operand `f` to that:
/// both operands are new nodes, `f` read before `g`.
pub open spec fn composed(a: &Pools, b: &Pools, id: ExprId) -> bool {
    &&& id.0 < b.exprs@.len()
    &&& b.exprs@[id.0 as int] matches Expr::Lambda(body, xn, _)
    &&& b.interner.text_of(xn) == "_compose_x"@
    &&& body.0 < b.exprs@.len()
    &&& b.exprs@[body.0 as int] matches Expr::Call(f, inner, _)
    &&& inner.0 < b.exprs@.len()
    &&& b.exprs@[inner.0 as int] matches Expr::Call(g, x, _)
    &&& x.0 < b.exprs@.len()
    &&& b.exprs@[x.0 as int] matches Expr::Var(d, xn2, _)
    &&& d.0 == 0 && xn2 == xn
    &&& a.exprs@.len() <= f.0 < g.0
}

/// `a <f> b <g> c ...`: `g (f a b) c` and so on, from the left.
fn parse_angle_apply_expr(
    src: &Source,
    pos: usize,
    pools: &mut Pools,
    ctx: &ParseContext,
    tctx: &TypeVarContext,
    fuel: usize,
) -> (r: Result<(ExprId, usize), String>)
    requires
        src.wf(),
        old(pools).wf(),
        pos <= src.toks@.len(),
    ensures
        read_expr_ok(src, old(pools), final(pools), pos, r),
    decreases fuel,
{
    if fuel == 0 {
        return Err(src.error(pos, "a less deeply nested expression"));
    }
    let (first, p0) = match parse_term(src, pos, pools, ctx, tctx, fuel - 1) {
        Ok(x) => x,
        Err(e) => return Err(e),
    };
    let mut args: Vec<ExprId> = Vec::new();
    let mut funcs: Vec<ExprId> = Vec::new();
    args.push(first);
    let mut p = p0;
    let mut done = false;
    while !done
        invariant
            fuel > 0,
            src.wf(),
            pools.wf(),
            extends(old(pools), pools),
            forall|k: int| 0 <= k < args@.len() ==> pools.valid_expr(#[trigger] args@[k]),
            forall|k: int| 0 <= k < funcs@.len() ==> pools.valid_expr(#[trigger] funcs@[k]),
            args@.len() == funcs@.len() + 1,
            done ==> funcs@.len() >= 1,
            pos < p <= src.toks@.len(),
        decreases src.toks@.len() - p, if done { 0nat } else { 1nat },
    {
        if !src.is(p, TokenKind::Lt) {
            return Err(src.error(p, "'<'"));
        }
        let (f, q) = match parse_term(src, p + 1, pools, ctx, tctx, fuel - 1) {
            Ok(x) => x,
            Err(e) => return Err(e),
        };
        if !src.is(q, TokenKind::Gt) {
            return Err(src.error(q, "'>'"));
        }
        funcs.push(f);
        let nested = match scan_term(src, q + 1) {
            Some(e) => is_angle_apply(src, e),
            None => false,
        };
        if nested {
            let (a, e) = match parse_term(src, q + 1, pools, ctx, tctx, fuel - 1) {
                Ok(x) => x,
                Err(e) => return Err(e),
            };
            args.push(a);
            p = e;
        } else {
            let (a, e) = match parse_expr(src, q + 1, pools, ctx, tctx, fuel - 1) {
                Ok(x) => x,
                Err(e) => return Err(e),
            };
            args.push(a);
            p = e;
            done = true;
        }
    }
    let span = span_of(src, pos, p, pools);
    let t = pools.call_span(funcs[0], args[0], span);
    let mut result = pools.call_span(t, args[1], span);
    let mut i: usize = 1;
    while i < funcs.len()
        invariant
            fuel > 0,
            1 <= i <= funcs@.len(),
            args@.len() == funcs@.len() + 1,
            pools.wf(),
            extends(old(pools), pools),
            forall|k: int| 0 <= k < args@.len() ==> pools.valid_expr(#[trigger] args@[k]),
            forall|k: int| 0 <= k < funcs@.len() ==> pools.valid_expr(#[trigger] funcs@[k]),
            pools.valid_expr(result),
            old(pools).exprs@.len() <= result.0,
        decreases funcs@.len() - i,
    {
        let t2 = pools.call_span(funcs[i], result, span);
        result = pools.call_span(t2, args[i + 1], span);
        i = i + 1;
    }
    Ok((result, p))
}

/// An optional term ending just before `stop`: `None` when `pos` is at `stop`.
fn parse_optional_term(
    src: &Source,
    pos: usize,
    stop: TokenKind,
    pools: &mut Pools,
    ctx: &ParseContext,
    tctx: &TypeVarContext,
    fuel: usize,
) -> (r: Result<(Option<ExprId>, usize), String>)
    requires
        src.wf(),
        old(pools).wf(),
        pos <= src.toks@.len(),
    ensures
        extends(old(pools), final(pools)),
        r matches Ok(x) ==> (x.0 matches Some(e) ==> final(pools).valid_expr(e)) && pos <= x.1 < src.toks@.len()
            && src.toks@[x.1 as int].kind == stop,
        fuel > 0 && kind_at(src, pos as int, stop) ==> r == Ok::<(Option<ExprId>, usize), String>((None, pos)) && *final(pools)
            == *old(pools),
        r matches Ok(x) ==> (x.0 is None ==> x.1 == pos),
        fuel == 0 ==> (r matches Err(m) && m@ == parse_error_text(src.text@, src.start_at(pos as int), "a less deeply nested expression"@)),
    decreases fuel,
{
    if fuel == 0 {
        return Err(src.error(pos, "a less deeply nested expression"));
    }
    if src.is(pos, stop) {
        return Ok((None, pos));
    }
    let (f, q) = match parse_term(src, pos, pools, ctx, tctx, fuel - 1) {
        Ok(x) => x,
        Err(e) => return Err(e),
    };
    if !src.is(q, stop) {
        return Err(src.error(q, "an operator"));
    }
    Ok((Some(f), q))
}

/// `a < f? | g | h? > b`: `g (f a) (h b)`, where a missing `f` or `h` leaves its operand as is.
fn parse_ternary_angle_expr(
    src: &Source,
    pos: usize,
    pools: &mut Pools,
    ctx: &ParseContext,
    tctx: &TypeVarContext,
    fuel: usize,
) -> (r: Result<(ExprId, usize), String>)
    requires
        src.wf(),
        old(pools).wf(),
        pos <= src.toks@.len(),
    ensures
        read_expr_ok(src, old(pools), final(pools), pos, r),
    decreases fuel,
{
    if fuel == 0 {
        return Err(src.error(pos, "a less deeply nested expression"));
    }
    let (left_value, p) = match parse_term(src, pos, pools, ctx, tctx, fuel - 1) {
        Ok(x) => x,
        Err(e) => return Err(e),
    };
    if !src.is(p, TokenKind::Lt) {
        return Err(src.error(p, "'<'"));
    }
    let (f_opt, q) = match parse_optional_term(src, p + 1, TokenKind::Bar, pools, ctx, tctx, fuel - 1) {
        Ok(x) => x,
        Err(e) => return Err(e),
    };
    let (g, r1) = match parse_term(src, q + 1, pools, ctx, tctx, fuel - 1) {
        Ok(x) => x,
        Err(e) => return Err(e),
    };
    if !src.is(r1, TokenKind::Bar) {
        return Err(src.error(r1, "'|'"));
    }
    let (h_opt, s) = match parse_optional_term(src, r1 + 1, TokenKind::Gt, pools, ctx, tctx, fuel - 1) {
        Ok(x) => x,
        Err(e) => return Err(e),
    };
    let (right_value, end) = match parse_expr(src, s + 1, pools, ctx, tctx, fuel - 1) {
        Ok(x) => x,
        Err(e) => return Err(e),
    };
    let span = span_of(src, pos, end, pools);
    let f_a = match f_opt {
        Some(f) => pools.call_span(f, left_value, span),
        None => left_value,
    };
    let h_b = match h_opt {
        Some(h) => pools.call_span(h, right_value, span),
        None => right_value,
    };
    let temp = pools.call_span(g, f_a, span);
    Ok((pools.call_span(temp, h_b, span), end))
}

/// `a | f? > g < h? | b`: `g (f a b) (h a b)`, where a missing `f` gives `a` and a missing
/// `h` gives `b`.
fn parse_pipe_angle_expr(
    src: &Source,
    pos: usize,
    pools: &mut Pools,
    ctx: &ParseContext,
    tctx: &TypeVarContext,
    fuel: usize,
) -> (r: Result<(ExprId, usize), String>)
    requires
        src.wf(),
        old(pools).wf(),
        pos <= src.toks@.len(),
    ensures
        read_expr_ok(src, old(pools), final(pools), pos, r),
    decreases fuel,
{
    if fuel == 0 {
        return Err(src.error(pos, "a less deeply nested expression"));
    }
    let (left_value, p) = match parse_term(src, pos, pools, ctx, tctx, fuel - 1) {
        Ok(x) => x,
        Err(e) => return Err(e),
    };
    if !src.is(p, TokenKind::Bar) {
        return Err(src.error(p, "'|'"));
    }
    let (f_opt, q) = match parse_optional_term(src, p + 1, TokenKind::Gt, pools, ctx, tctx, fuel - 1) {
        Ok(x) => x,
        Err(e) => return Err(e),
    };
    let (g, r1) = match parse_term(src, q + 1, pools, ctx, tctx, fuel - 1) {
        Ok(x) => x,
        Err(e) => return Err(e),
    };
    if !src.is(r1, TokenKind::Lt) {
        return Err(src.error(r1, "'<'"));
    }
    let (h_opt, s) = match parse_optional_term(src, r1 + 1, TokenKind::Bar, pools, ctx, tctx, fuel - 1) {
        Ok(x) => x,
        Err(e) => return Err(e),
    };
    let (right_value, end) = match parse_expr(src, s + 1, pools, ctx, tctx, fuel - 1) {
        Ok(x) => x,
        Err(e) => return Err(e),
    };
    let span = span_of(src, pos, end, pools);
    let left_arg = match f_opt {
        Some(f) => {
            let temp = pools.call_span(f, left_value, span);
            pools.call_span(temp, right_value, span)
        },
        None => left_value,
    };
    let right_arg = match h_opt {
        Some(h) => {
            let temp = pools.call_span(h, left_value, span);
            pools.call_span(temp, right_value, span)
        },
        None => right_value,
    };
    let temp = pools.call_span(g, left_arg, span);
    Ok((pools.call_span(temp, right_arg, span), end))
}

} // verus!

verus! {

/// A term: one argument, or an application of arguments; a constructor name applied to
/// arguments constructs with the first and is called with the others.
fn parse_term(
    src: &Source,
    pos: usize,
    pools: &mut Pools,
    ctx: &ParseContext,
    tctx: &TypeVarContext,
    fuel: usize,
) -> (r: Result<(ExprId, usize), String>)
    requires
        src.wf(),
        old(pools).wf(),
        pos <= src.toks@.len(),
    ensures
        read_expr_ok(src, old(pools), final(pools), pos, r),
        fuel > 2 && lone_number(src, pos as int) ==> number_read(src, pos as int, old(pools), final(pools), r),
    decreases fuel,
{
    if fuel == 0 {
        return Err(src.error(pos, "a less deeply nested expression"));
    }
    let first_end = match scan_arg(src, pos) {
        Some(p) => p,
        None => return Err(src.error(pos, "an expression")),
    };
    let term_end = match scan_term(src, pos) {
        Some(p) => p,
        None => return Err(src.error(pos, "an expression")),
    };
    if src.is(pos, TokenKind::Upper) && first_end == pos + 1 {
        let name = match intern_token(src, pos, pools) {
            Ok(n) => n,
            Err(e) => return Err(e),
        };
        if term_end == first_end {
            let span = span_of(src, pos, first_end, pools);
            let unit_arg = pools.unit_span(span);
            return Ok((pools.construct_span(name, unit_arg, span), first_end));
        }
        let span = span_of(src, pos, term_end, pools);
        let (first_arg, p1) = match parse_arg(src, first_end, pools, ctx, tctx, fuel - 1) {
            Ok(x) => x,
            Err(e) => return Err(e),
        };
        let mut result = pools.construct_span(name, first_arg, span);
        let mut p = p1;
        while scan_arg(src, p).is_some()
            invariant
                fuel > 0,
                src.wf(),
                pools.wf(),
                extends(old(pools), pools),
                pools.valid_expr(result),
                old(pools).exprs@.len() <= result.0,
                pos < p <= src.toks@.len(),
            decreases src.toks@.len() - p,
        {
            let (arg, q) = match parse_arg(src, p, pools, ctx, tctx, fuel - 1) {
                Ok(x) => x,
                Err(e) => return Err(e),
            };
            let arg_span = span_of(src, p, q, pools);
            result = pools.call_span(result, arg, arg_span);
            p = q;
        }
        return Ok((result, p));
    }
    let ghost a0 = *old(pools);
    let (head, p0) = match parse_arg(src, pos, pools, ctx, tctx, fuel - 1) {
        Ok(x) => x,
        Err(e) => return Err(e),
    };
    let mut args: Vec<ExprId> = Vec::new();
    let mut p = p0;
    while scan_arg(src, p).is_some()
        invariant
            fuel > 2 && lone_number(src, pos as int) ==> args@.len() == 0 && number_read(src, pos as int, &a0, pools, Ok::<(ExprId, usize), String>((head, p))),
            fuel > 0,
            src.wf(),
            pools.wf(),
            extends(old(pools), pools),
            pools.valid_expr(head),
            old(pools).exprs@.len() <= head.0,
            forall|k: int| 0 <= k < args@.len() ==> pools.valid_expr(#[trigger] args@[k]),
            pos < p <= src.toks@.len(),
        decreases src.toks@.len() - p,
    {
        let (arg, q) = match parse_arg(src, p, pools, ctx, tctx, fuel - 1) {
            Ok(x) => x,
            Err(e) => return Err(e),
        };
        args.push(arg);
        p = q;
    }
    if args.len() == 0 {
        return Ok((head, p));
    }
    let span = span_of(src, pos, p, pools);
    let mut result = head;
    let mut i: usize = 0;
    while i < args.len()
        invariant
            fuel > 0,
            i <= args@.len(),
            pools.wf(),
            extends(old(pools), pools),
            pools.valid_expr(result),
            old(pools).exprs@.len() <= result.0,
            forall|k: int| 0 <= k < args@.len() ==> pools.valid_expr(#[trigger] args@[k]),
        decreases args@.len() - i,
    {
        result = pools.call_span(result, args[i], span);
        i = i + 1;
    }
    Ok((result, p))
}

/// An atom followed by field projections `.name`.
fn parse_arg(
    src: &Source,
    pos: usize,
    pools: &mut Pools,
    ctx: &ParseContext,
    tctx: &TypeVarContext,
    fuel: usize,
) -> (r: Result<(ExprId, usize), String>)
    requires
        src.wf(),
        old(pools).wf(),
        pos <= src.toks@.len(),
    ensures
        read_expr_ok(src, old(pools), final(pools), pos, r),
        fuel > 1 && lone_number(src, pos as int) ==> number_read(src, pos as int, old(pools), final(pools), r),
    decreases fuel,
{
    if fuel == 0 {
        return Err(src.error(pos, "a less deeply nested expression"));
    }
    let ghost a0 = *old(pools);
    let (mut e, mut p) = match parse_atom(src, pos, pools, ctx, tctx, fuel - 1) {
        Ok(x) => x,
        Err(e) => return Err(e),
    };
    while p + 1 < src.toks.len() && src.is(p, TokenKind::Dot) && src.is(p + 1, TokenKind::Lower)
        invariant
            fuel > 1 && lone_number(src, pos as int) ==> number_read(src, pos as int, &a0, pools, Ok::<(ExprId, usize), String>((e, p))),
            fuel > 0,
            src.wf(),
            pools.wf(),
            extends(old(pools), pools),
            pools.valid_expr(e),
            old(pools).exprs@.len() <= e.0,
            pos < p <= src.toks@.len(),
        decreases src.toks@.len() - p,
    {
        let field = match intern_token(src, p + 1, pools) {
            Ok(n) => n,
            Err(e) => return Err(e),
        };
        let field_span = span_of(src, p + 1, p + 2, pools);
        e = pools.project_expr_span(e, field, field_span);
        p = p + 2;
    }
    Ok((e, p))
}

/// An atom: a number, a string, a constructor, a variable, a parenthesized expression,
/// a record, a foreign-function expression, or a partial application `f(_, x)`.
fn parse_atom(
    src: &Source,
    pos: usize,
    pools: &mut Pools,
    ctx: &ParseContext,
    tctx: &TypeVarContext,
    fuel: usize,
) -> (r: Result<(ExprId, usize), String>)
    requires
        src.wf(),
        old(pools).wf(),
        pos <= src.toks@.len(),
    ensures
        read_expr_ok(src, old(pools), final(pools), pos, r),
        fuel > 0 && lone_number(src, pos as int) ==> number_read(src, pos as int, old(pools), final(pools), r),
    decreases fuel,
{
    if fuel == 0 {
        return Err(src.error(pos, "a less deeply nested expression"));
    }
    match src.kind(pos) {
        Some(TokenKind::Number) => {
            let n = match number_value(src, pos) {
                Some(n) => n,
                None => return Err(src.error(pos, "a number that fits a machine integer")),
            };
            let ghost p1 = *pools;
            let span = span_of(src, pos, pos + 1, pools);
            let ghost p2 = *pools;
            let id = pools.int_span(n, span);
            proof {
                assert(p2.exprs == p1.exprs);
                assert(pools.exprs@ == p1.exprs@.push(Expr::Int(n, span)));
                assert(pools.exprs@.subrange(0, p1.exprs@.len() as int) =~= p1.exprs@);
                assert(pools.exprs@[id.0 as int] == Expr::Int(n, span));
            }
            Ok((id, pos + 1))
        },
        Some(TokenKind::Str) => {
            let content = inner_chars(src, pos);
            let s = match pools.intern_chars(&content) {
                Some(s) => s,
                None => return Err(src.error(pos, "fewer distinct names")),
            };
            let span = span_of(src, pos, pos + 1, pools);
            Ok((pools.string_span(s, span), pos + 1))
        },
        Some(TokenKind::Upper) => {
            let name = match intern_token(src, pos, pools) {
                Ok(n) => n,
                Err(e) => return Err(e),
            };
            let span = span_of(src, pos, pos + 1, pools);
            let unit_arg = pools.unit_span(span);
            Ok((pools.construct_span(name, unit_arg, span), pos + 1))
        },
        Some(TokenKind::Lower) => {
            if is_ffi_start(src, pos) {
                return parse_ffi_expr(src, pos, pools, ctx, tctx, fuel - 1);
            }
            if src.is(pos + 1, TokenKind::LParen) && group_has_placeholder(src, pos + 1) {
                return parse_partial_application(src, pos, pools, ctx, tctx, fuel - 1);
            }
            let name = match intern_token(src, pos, pools) {
                Ok(n) => n,
                Err(e) => return Err(e),
            };
            let span = span_of(src, pos, pos + 1, pools);
            if pools.is_constructor(&name) {
                let unit_arg = pools.unit_span(span);
                return Ok((pools.construct_span(name, unit_arg, span), pos + 1));
            }
            match ctx.lookup_var(name) {
                Some(d) => Ok((pools.expr_var_span(d, name, span), pos + 1)),
                None => Ok((pools.expr_var_span(DeBruijnIndex::new(usize::MAX), name, span), pos + 1)),
            }
        },
        Some(TokenKind::LParen) => {
            let (e, p) = match parse_expr(src, pos + 1, pools, ctx, tctx, fuel - 1) {
                Ok(x) => x,
                Err(e) => return Err(e),
            };
            if !src.is(p, TokenKind::RParen) {
                return Err(src.error(p, "')'"));
            }
            Ok((e, p + 1))
        },
        Some(TokenKind::LBrace) => parse_record(src, pos, pools, ctx, tctx, fuel - 1),
        _ => Err(src.error(pos, "an expression")),
    }
}

/// `name: expr, ...` up to the closing `}`.
fn parse_record_fields(
    src: &Source,
    pos: usize,
    pools: &mut Pools,
    ctx: &ParseContext,
    tctx: &TypeVarContext,
    fuel: usize,
) -> (r: Result<(Vec<RecordField>, usize), String>)
    requires
        src.wf(),
        old(pools).wf(),
        pos <= src.toks@.len(),
    ensures
        extends(old(pools), final(pools)),
        r matches Ok(x) ==> (forall|k: int| 0 <= k < x.0@.len() ==> (#[trigger] x.0@[k]).expr.0 < final(pools).exprs@.len())
            && pos <= x.1 < src.toks@.len() && src.toks@[x.1 as int].kind == TokenKind::RBrace,
    decreases fuel,
{
    if fuel == 0 {
        return Err(src.error(pos, "a less deeply nested expression"));
    }
    let mut fields: Vec<RecordField> = Vec::new();
    let mut p = pos;
    while !src.is(p, TokenKind::RBrace)
        invariant
            fuel > 0,
            src.wf(),
            pools.wf(),
            extends(old(pools), pools),
            forall|k: int| 0 <= k < fields@.len() ==> (#[trigger] fields@[k]).expr.0 < pools.exprs@.len(),
            pos <= p <= src.toks@.len(),
        decreases src.toks@.len() - p,
    {
        if !(src.is(p, TokenKind::Lower) && src.is(p + 1, TokenKind::Colon)) {
            return Err(src.error(p, "a field"));
        }
        let name = match intern_token(src, p, pools) {
            Ok(n) => n,
            Err(e) => return Err(e),
        };
        let (e, q) = match parse_expr(src, p + 2, pools, ctx, tctx, fuel - 1) {
            Ok(x) => x,
            Err(e) => return Err(e),
        };
        fields.push(RecordField { name, expr: e });
        p = q;
        if src.is(p, TokenKind::Comma) {
            p = p + 1;
        } else if !src.is(p, TokenKind::RBrace) {
            return Err(src.error(p, "'}'"));
        }
    }
    Ok((fields, p))
}

/// `{ name: expr, ... }` or `{ record with name: expr, ... }`.
fn parse_record(
    src: &Source,
    pos: usize,
    pools: &mut Pools,
    ctx: &ParseContext,
    tctx: &TypeVarContext,
    fuel: usize,
) -> (r: Result<(ExprId, usize), String>)
    requires
        src.wf(),
        old(pools).wf(),
        pos < src.toks@.len(),
    ensures
        read_expr_ok(src, old(pools), final(pools), pos, r),
    decreases fuel,
{
    if fuel == 0 {
        return Err(src.error(pos, "a less deeply nested expression"));
    }
    let literal = src.is(pos + 1, TokenKind::RBrace) || (src.is(pos + 1, TokenKind::Lower) && src.is(pos + 2, TokenKind::Colon));
    if literal {
        let (fields, p) = match parse_record_fields(src, pos + 1, pools, ctx, tctx, fuel - 1) {
            Ok(x) => x,
            Err(e) => return Err(e),
        };
        let span = span_of(src, pos, p + 1, pools);
        Ok((pools.record_expr_span(fields.as_slice(), span), p + 1))
    } else {
        let (record, p) = match parse_expr(src, pos + 1, pools, ctx, tctx, fuel - 1) {
            Ok(x) => x,
            Err(e) => return Err(e),
        };
        if !src.is(p, TokenKind::With) {
            return Err(src.error(p, "'with'"));
        }
        let (fields, q) = match parse_record_fields(src, p + 1, pools, ctx, tctx, fuel - 1) {
            Ok(x) => x,
            Err(e) => return Err(e),
        };
        let span = span_of(src, pos, q + 1, pools);
        Ok((pools.extend_expr_span(record, fields.as_slice(), span), q + 1))
    }
}

/// `ffi!(<code>, type?, arg?)`; a second item that starts with a capital letter is the
/// type.
fn parse_ffi_expr(
    src: &Source,
    pos: usize,
    pools: &mut Pools,
    ctx: &ParseContext,
    tctx: &TypeVarContext,
    fuel: usize,
) -> (r: Result<(ExprId, usize), String>)
    requires
        src.wf(),
        old(pools).wf(),
        pos < src.toks@.len(),
    ensures
        read_expr_ok(src, old(pools), final(pools), pos, r),
    decreases fuel,
{
    if fuel == 0 {
        return Err(src.error(pos, "a less deeply nested expression"));
    }
    if !(src.is(pos + 1, TokenKind::Bang) && src.is(pos + 2, TokenKind::LParen) && src.is(pos + 3, TokenKind::FfiCode)) {
        return Err(src.error(pos, "ffi!(<code>)"));
    }
    let code_chars = inner_chars(src, pos + 3);
    let code = match pools.intern_chars(&code_chars) {
        Some(c) => c,
        None => return Err(src.error(pos, "fewer distinct names")),
    };
    let mut p = pos + 4;
    let mut type_annotation: Option<TypeId> = None;
    let mut arg_expr: Option<ExprId> = None;
    if src.is(p, TokenKind::Comma) && (src.is(p + 1, TokenKind::Upper) || src.is(p + 1, TokenKind::LBrace)) {
        let (t, q) = match parse_type_expr(src, p + 1, pools, tctx, fuel - 1) {
            Ok(x) => x,
            Err(e) => return Err(e),
        };
        type_annotation = Some(t);
        p = q;
    }
    if src.is(p, TokenKind::Comma) {
        let (e, q) = match parse_expr(src, p + 1, pools, ctx, tctx, fuel - 1) {
            Ok(x) => x,
            Err(e) => return Err(e),
        };
        arg_expr = Some(e);
        p = q;
    }
    if !src.is(p, TokenKind::RParen) {
        return Err(src.error(p, "')'"));
    }
    let span = span_of(src, pos, p + 1, pools);
    let id = pools.alloc_expr(Expr::Ffi(code, type_annotation, arg_expr, span));
    Ok((id, p + 1))
}

/// The name `_placeholder_<i>`.
fn placeholder_name(pools: &mut Pools, i: usize) -> (r: Result<InternedString, String>)
    requires
        old(pools).wf(),
    ensures
        extends(old(pools), final(pools)),
        (r is Ok) == (old(pools).interner.strings@.len() < 0xFFFF_FFFE),
        r matches Ok(n) ==> final(pools).interner.text_of(n) == "_placeholder_"@ + crate::text::nat_digits(i as nat),
        r matches Err(m) ==> *final(pools) == *old(pools) && m@ == "Too many distinct names"@,
{
    let mut chars = str_to_chars("_placeholder_");
    push_usize(&mut chars, i);
    match pools.intern_chars(&chars) {
        Some(n) => Ok(n),
        None => Err(chars_to_string(&str_to_chars("Too many distinct names"))),
    }
}

/// `f(a, _, b, _)`: a function of one parameter per `_`, which calls `f` with the
/// arguments and the parameters in place of the placeholders.
fn parse_partial_application(
    src: &Source,
    pos: usize,
    pools: &mut Pools,
    ctx: &ParseContext,
    tctx: &TypeVarContext,
    fuel: usize,
) -> (r: Result<(ExprId, usize), String>)
    requires
        src.wf(),
        old(pools).wf(),
        pos < src.toks@.len(),
    ensures
        read_expr_ok(src, old(pools), final(pools), pos, r),
    decreases fuel,
{
    if fuel == 0 {
        return Err(src.error(pos, "a less deeply nested expression"));
    }
    let function_name = match intern_token(src, pos, pools) {
        Ok(n) => n,
        Err(e) => return Err(e),
    };
    if !src.is(pos + 1, TokenKind::LParen) {
        return Err(src.error(pos + 1, "'('"));
    }
    // first pass: the positions of the placeholders
    let mut placeholder_count: usize = 0;
    let mut p = pos + 2;
    let mut is_placeholder: Vec<bool> = Vec::new();
    loop
        invariant
            fuel > 0,
            src.wf(),
            pools.wf(),
            extends(old(pools), pools),
            pos < p <= src.toks@.len(),
            placeholder_count <= is_placeholder@.len(),
            is_placeholder@.len() <= p,
        decreases src.toks@.len() - p,
    {
        if src.is(p, TokenKind::Underscore) && (src.is(p + 1, TokenKind::Comma) || src.is(p + 1, TokenKind::RParen)) {
            is_placeholder.push(true);
            placeholder_count = placeholder_count + 1;
            p = p + 1;
        } else {
            match scan_expr_end(src, p) {
                Some(q) => {
                    is_placeholder.push(false);
                    p = q;
                },
                None => return Err(src.error(p, "an argument")),
            }
        }
        if src.is(p, TokenKind::Comma) {
            p = p + 1;
        } else {
            break;
        }
    }
    if !src.is(p, TokenKind::RParen) {
        return Err(src.error(p, "')'"));
    }
    let end = p + 1;
    let mut lambda_vars: Vec<InternedString> = Vec::new();
    let mut i: usize = 0;
    while i < placeholder_count
        invariant
            fuel > 0,
            i <= placeholder_count,
            lambda_vars@.len() == i,
            pools.wf(),
            extends(old(pools), pools),
        decreases placeholder_count - i,
    {
        let v = match placeholder_name(pools, i) {
            Ok(n) => n,
            Err(e) => return Err(e),
        };
        lambda_vars.push(v);
        i = i + 1;
    }
    let mut inner = ParseContext { name_stack: copy_names(&ctx.name_stack) };
    let mut j: usize = lambda_vars.len();
    while j > 0
        invariant
            fuel > 0,
            j <= lambda_vars@.len(),
        decreases j,
    {
        j = j - 1;
        inner.name_stack.push(lambda_vars[j]);
    }
    let span = span_of(src, pos, end, pools);
    // second pass: the arguments
    let mut call_args: Vec<ExprId> = Vec::new();
    let mut placeholder_index: usize = 0;
    let mut q = pos + 2;
    let mut k: usize = 0;
    while k < is_placeholder.len()
        invariant
            fuel > 0,
            k <= is_placeholder@.len(),
            placeholder_index <= k,
            placeholder_index <= placeholder_count,
            lambda_vars@.len() == placeholder_count,
            src.wf(),
            pools.wf(),
            extends(old(pools), pools),
            forall|m: int| 0 <= m < call_args@.len() ==> pools.valid_expr(#[trigger] call_args@[m]),
            pos < q <= src.toks@.len(),
        decreases is_placeholder@.len() - k,
    {
        if is_placeholder[k] {
            if placeholder_index >= placeholder_count {
                return Err(src.error(q, "an argument"));
            }
            if !src.is(q, TokenKind::Underscore) {
                return Err(src.error(q, "'_'"));
            }
            let var_name = lambda_vars[placeholder_index];
            let var_expr = pools.expr_var_span(DeBruijnIndex::new(placeholder_count - 1 - placeholder_index), var_name, span);
            call_args.push(var_expr);
            placeholder_index = placeholder_index + 1;
            q = q + 1;
        } else {
            let (e, q2) = match parse_expr(src, q, pools, &inner, tctx, fuel - 1) {
                Ok(x) => x,
                Err(e) => return Err(e),
            };
            call_args.push(e);
            q = q2;
        }
        if src.is(q, TokenKind::Comma) {
            q = q + 1;
        }
        k = k + 1;
    }
    let function_expr = if pools.is_constructor(&function_name) {
        let unit_arg = pools.unit_span(span);
        pools.construct_span(function_name, unit_arg, span)
    } else {
        pools.expr_var_span(DeBruijnIndex::new(usize::MAX), function_name, span)
    };
    let mut result = function_expr;
    let mut m: usize = 0;
    while m < call_args.len()
        invariant
            fuel > 0,
            m <= call_args@.len(),
            pools.wf(),
            extends(old(pools), pools),
            pools.valid_expr(result),
            old(pools).exprs@.len() <= result.0,
            forall|t: int| 0 <= t < call_args@.len() ==> pools.valid_expr(#[trigger] call_args@[t]),
        decreases call_args@.len() - m,
    {
        result = pools.call_span(result, call_args[m], span);
        m = m + 1;
    }
    let mut n = lambda_vars.len();
    while n > 0
        invariant
            fuel > 0,
            n <= lambda_vars@.len(),
            pools.wf(),
            extends(old(pools), pools),
            pools.valid_expr(result),
            old(pools).exprs@.len() <= result.0,
        decreases n,
    {
        n = n - 1;
        result = pools.lambda_span(result, lambda_vars[n], span);
    }
    Ok((result, end))
}

/// Walking an expression that starts at `pos` from token `p` at nesting `depth`: the
/// position of the first `,` or unmatched closing bracket, if it is not `pos`.
pub open spec fn expr_end_walk(toks: Seq<Token>, pos: int, p: int, depth: int) -> Option<int>
    decreases toks.len() - p,
{
    if p < 0 || p >= toks.len() {
        None
    } else if is_open(toks[p].kind) {
        expr_end_walk(toks, pos, p + 1, depth + 1)
    } else if is_close(toks[p].kind) {
        if depth == 0 {
            if p == pos { None } else { Some(p) }
        } else {
            expr_end_walk(toks, pos, p + 1, depth - 1)
        }
    } else if toks[p].kind == TokenKind::Comma && depth == 0 {
        if p == pos { None } else { Some(p) }
    } else {
        expr_end_walk(toks, pos, p + 1, depth)
    }
}

/// Where the expression starting at `pos` ends, skipping bracket groups: at the first `,`
/// or unmatched `)` or `}`.
fn scan_expr_end(src: &Source, pos: usize) -> (r: Option<usize>)
    requires
        src.wf(),
        pos <= src.toks@.len(),
    ensures
        r matches Some(p) ==> pos < p <= src.toks@.len(),
        (r is Some) == (expr_end_walk(src.toks@, pos as int, pos as int, 0) is Some),
        r matches Some(p) ==> expr_end_walk(src.toks@, pos as int, pos as int, 0) == Some(p as int),
{
    let mut depth: usize = 0;
    let mut p = pos;
    while p < src.toks.len()
        invariant
            pos <= p <= src.toks@.len(),
            src.wf(),
            depth <= p - pos,
            expr_end_walk(src.toks@, pos as int, p as int, depth as int) == expr_end_walk(src.toks@, pos as int, pos as int, 0),
        decreases src.toks@.len() - p,
    {
        let k = src.toks[p].kind;
        if k == TokenKind::LParen || k == TokenKind::LBrace {
            if depth == usize::MAX {
                return None;
            }
            depth = depth + 1;
        } else if k == TokenKind::RParen || k == TokenKind::RBrace {
            if depth == 0 {
                if p == pos {
                    return None;
                }
                return Some(p);
            }
            depth = depth - 1;
        } else if k == TokenKind::Comma && depth == 0 {
            if p == pos {
                return None;
            }
            return Some(p);
        }
        p = p + 1;
    }
    None
}

} // verus!

verus! {

/// `fun name(param: type, ...) -> type { body }`: the implementation is the body under
/// one lambda per parameter; a signature is bound when any type is written, with fresh
/// variables for the types left out.
fn parse_function_def(src: &Source, pos: usize, pools: &mut Pools, tctx: &TypeVarContext, fuel: usize) -> (r: Result<usize, String>)
    requires
        src.wf(),
        old(pools).wf(),
        pos < src.toks@.len(),
    ensures
        extends(old(pools), final(pools)),
        r matches Ok(p) ==> pos < p <= src.toks@.len(),
{
    if fuel == 0 {
        return Err(src.error(pos, "a less deeply nested definition"));
    }
    if !src.is(pos + 1, TokenKind::Lower) {
        return Err(src.error(pos + 1, "a function name"));
    }
    let function_name = match intern_token(src, pos + 1, pools) {
        Ok(n) => n,
        Err(e) => return Err(e),
    };
    let mut params: Vec<InternedString> = Vec::new();
    let mut param_types: Vec<Option<TypeId>> = Vec::new();
    let mut has_annotations = false;
    let mut p = pos + 2;
    if src.is(p, TokenKind::LParen) {
        p = p + 1;
        while src.is(p, TokenKind::Lower)
            invariant
                src.wf(),
                pools.wf(),
                extends(old(pools), pools),
                pos < p <= src.toks@.len(),
                forall|k: int| 0 <= k < param_types@.len() ==> (#[trigger] param_types@[k] matches Some(t) ==> pools.valid_type(t)),
                fuel > 0,
            decreases src.toks@.len() - p,
        {
            let name = match intern_token(src, p, pools) {
                Ok(n) => n,
                Err(e) => return Err(e),
            };
            params.push(name);
            p = p + 1;
            if src.is(p, TokenKind::Colon) {
                let (t, q) = match parse_type_expr(src, p + 1, pools, tctx, fuel - 1) {
                    Ok(x) => x,
                    Err(e) => return Err(e),
                };
                param_types.push(Some(t));
                has_annotations = true;
                p = q;
            } else {
                param_types.push(None);
            }
            if src.is(p, TokenKind::Comma) {
                p = p + 1;
            }
        }
        if !src.is(p, TokenKind::RParen) {
            return Err(src.error(p, "')'"));
        }
        p = p + 1;
    }
    let mut return_type: Option<TypeId> = None;
    if src.is(p, TokenKind::Arrow) {
        let (t, q) = match parse_type_expr(src, p + 1, pools, tctx, fuel - 1) {
            Ok(x) => x,
            Err(e) => return Err(e),
        };
        return_type = Some(t);
        has_annotations = true;
        p = q;
    }
    if !src.is(p, TokenKind::LBrace) {
        return Err(src.error(p, "'{'"));
    }
    let mut ctx = ParseContext::new();
    let mut i: usize = 0;
    while i < params.len()
        invariant
            i <= params@.len(),
        decreases params@.len() - i,
    {
        ctx.name_stack.push(params[i]);
        i = i + 1;
    }
    let (body_expr, q) = match parse_expr(src, p + 1, pools, &ctx, tctx, fuel - 1) {
        Ok(x) => x,
        Err(e) => return Err(e),
    };
    if !src.is(q, TokenKind::RBrace) {
        return Err(src.error(q, "'}'"));
    }
    let mut lambda_expr = body_expr;
    let mut j: usize = params.len();
    while j > 0
        invariant
            j <= params@.len(),
            pools.wf(),
            extends(old(pools), pools),
            pools.valid_expr(lambda_expr),
            return_type matches Some(t) ==> pools.valid_type(t),
            forall|m: int| 0 <= m < param_types@.len() ==> (#[trigger] param_types@[m] matches Some(t) ==> pools.valid_type(t)),
        decreases j,
    {
        j = j - 1;
        lambda_expr = pools.lambda(lambda_expr, params[j]);
    }
    if has_annotations {
        let mut function_type = match return_type {
            Some(t) => t,
            None => match fresh_var(src, q, pools) {
                Ok(t) => t,
                Err(e) => return Err(e),
            },
        };
        let mut k: usize = param_types.len();
        while k > 0
            invariant
                k <= param_types@.len(),
                src.wf(),
                pools.wf(),
                extends(old(pools), pools),
                pools.valid_type(function_type),
                pools.valid_expr(lambda_expr),
                forall|m: int| 0 <= m < param_types@.len() ==> (#[trigger] param_types@[m] matches Some(t) ==> pools.valid_type(t)),
            decreases k,
        {
            k = k - 1;
            let param_t = match param_types[k] {
                Some(t) => t,
                None => match fresh_var(src, q, pools) {
                    Ok(t) => t,
                    Err(e) => return Err(e),
                },
            };
            function_type = pools.type_arrow(param_t, function_type);
        }
        let function_scheme = TypeScheme::new(Vec::new(), function_type);
        pools.bind_global_scheme(function_name, function_scheme);
    }
    pools.add_function_implementation(function_name, lambda_expr);
    Ok(q + 1)
}

/// A fresh type variable, or an error when none is left.
fn fresh_var(src: &Source, pos: usize, pools: &mut Pools) -> (r: Result<TypeId, String>)
    requires
        src.wf(),
        old(pools).wf(),
    ensures
        extends(old(pools), final(pools)),
        r matches Ok(t) ==> final(pools).valid_type(t),
        (r is Ok) == (old(pools).next_type_var < usize::MAX),
        r matches Ok(t) ==> final(pools).types@[t.0 as int] == crate::types::Type::Var(TypeVarId(old(pools).next_type_var, None), SpanId(0))
            && final(pools).next_type_var == old(pools).next_type_var + 1,
        r matches Err(m) ==> *final(pools) == *old(pools) && m@ == parse_error_text(
            src.text@,
            src.start_at(pos as int),
            "fewer type variables"@,
        ),
{
    if pools.next_type_var >= usize::MAX {
        return Err(src.error(pos, "fewer type variables"));
    }
    Ok(pools.fresh_type_var())
}

/// The declarations and expressions of a program, separated by `;`. Declarations are
/// registered in the pools; the expressions are returned in order.
fn parse_program(src: &Source, pools: &mut Pools) -> (r: Result<Vec<ExprId>, String>)
    requires
        src.wf(),
        old(pools).wf(),
    ensures
        extends(old(pools), final(pools)),
        r matches Ok(ids) ==> forall|k: int| 0 <= k < ids@.len() ==> final(pools).valid_expr(#[trigger] ids@[k]),
        src.toks@.len() == 0 ==> (r matches Ok(ids) && ids@.len() == 0) && *final(pools) == *old(pools),
        lone_number(src, 0) ==> (r matches Ok(ids) && ids@.len() == 1
            && number_read(src, 0, old(pools), final(pools), Ok::<(ExprId, usize), String>((ids@[0], 1usize)))),
{
    let mut ret: Vec<ExprId> = Vec::new();
    let ctx = ParseContext::new();
    let type_ctx = TypeVarContext::new();
    let fuel = parse_fuel(src.toks.len());
    let mut pos: usize = 0;
    while pos < src.toks.len()
        invariant
            src.wf(),
            pools.wf(),
            extends(old(pools), pools),
            pos <= src.toks@.len(),
            forall|k: int| 0 <= k < ret@.len() ==> pools.valid_expr(#[trigger] ret@[k]),
            src.toks@.len() == 0 ==> ret@.len() == 0 && *pools == *old(pools),
            lone_number(src, 0) ==> (pos == 0 && ret@.len() == 0 && *pools == *old(pools)) || (pos == 1 && ret@.len() == 1
                && number_read(src, 0, old(pools), pools, Ok::<(ExprId, usize), String>((ret@[0], 1usize)))),
            fuel == parse_fuel_spec(src.toks@.len() as int),
        decreases src.toks@.len() - pos,
    {
        let next = if src.is(pos, TokenKind::Data) {
            match parse_data_def(src, pos, pools, &type_ctx, fuel) {
                Ok(p) => p,
                Err(e) => return Err(e),
            }
        } else if src.is(pos, TokenKind::Fun) {
            match parse_function_def(src, pos, pools, &type_ctx, fuel) {
                Ok(p) => p,
                Err(e) => return Err(e),
            }
        } else {
            match parse_expr(src, pos, pools, &ctx, &type_ctx, fuel) {
                Ok((e, p)) => {
                    ret.push(e);
                    p
                },
                Err(e) => return Err(e),
            }
        };
        if src.is(next, TokenKind::Semi) {
            pos = next + 1;
        } else if next >= src.toks.len() {
            pos = next;
        } else {
            return Err(src.error(next, "';'"));
        }
    }
    Ok(ret)
}

/// The text holds only spaces, tabs and line breaks.
pub open spec fn blank_text(t: Seq<char>) -> bool {
    forall|k: int| 0 <= k < t.len() ==> crate::lexer::is_space_char(#[trigger] t[k])
}

/// The text is a number alone that fits a machine integer.
pub open spec fn number_text(t: Seq<char>) -> bool {
    &&& crate::lexer::numeral_chars(t)
    &&& number_of(t) is Some
    &&& t.len() + 1 < usize::MAX
}

/// Every implemented function already has a global scheme.
pub open spec fn implementations_declared(p: &Pools) -> bool {
    forall|k: int| 0 <= k < p.function_implementations@.len()
        ==> crate::pools::assoc_index(p.globals@, #[trigger] p.function_implementations@[k].0) != -1
}

/// No expression is a variable without a local binder.
pub open spec fn all_resolved(pools: &Pools) -> bool {
    forall|i: int| 0 <= i < pools.exprs@.len() ==> !(#[trigger] pools.exprs@[i] matches Expr::Var(d, _, _) && d.0 == usize::MAX)
}

/// `InternedString(n)` for each handle, separated by `, `.
pub open spec fn handle_listing(names: Seq<InternedString>) -> Seq<char>
    decreases names.len(),
{
    if names.len() == 0 {
        Seq::empty()
    } else {
        let item = "InternedString("@ + crate::text::nat_digits(names.last().0 as nat) + ")"@;
        if names.len() == 1 {
            item
        } else {
            handle_listing(names.drop_last()) + ", "@ + item
        }
    }
}

/// Formats `Undefined variables: [InternedString(n), ...]`.
fn undefined_message(names: &Vec<InternedString>) -> (r: String)
    ensures
        r@ == "Undefined variables: ["@ + handle_listing(names@) + "]"@,
{
    let mut out = str_to_chars("Undefined variables: [");
    let mut i: usize = 0;
    while i < names.len()
        invariant
            i <= names@.len(),
            out@ == "Undefined variables: ["@ + handle_listing(names@.subrange(0, i as int)),
        decreases names@.len() - i,
    {
        assert(names@.subrange(0, i + 1).drop_last() =~= names@.subrange(0, i as int));
        if i > 0 {
            push_str(&mut out, ", ");
        }
        push_str(&mut out, "InternedString(");
        push_usize(&mut out, names[i].0 as usize);
        push_str(&mut out, ")");
        i = i + 1;
        assert(out@ =~= "Undefined variables: ["@ + handle_listing(names@.subrange(0, i as int)));
    }
    assert(names@.subrange(0, names@.len() as int) =~= names@);
    push_str(&mut out, "]");
    chars_to_string(&out)
}

impl LambdaParser {
    /// Reads a program into `pools`: declarations are registered, every implemented
    /// function without a signature gets a monomorphic one, and every free variable is
    /// resolved to the global of its name. Returns the program's expressions.
    pub fn parse_program_to_pool(input: &str, pools: &mut Pools) -> (r: Result<Vec<ExprId>, String>)
        requires
            old(pools).wf(),
        ensures
            final(pools).wf(),
            final(pools).exprs@.len() >= old(pools).exprs@.len(),
            final(pools).types@.len() >= old(pools).types@.len(),
            r matches Ok(ids) ==> (forall|k: int| 0 <= k < ids@.len() ==> final(pools).valid_expr(#[trigger] ids@[k]))
                && all_resolved(final(pools)),
            blank_text(input@) && input@.len() + 1 < usize::MAX && all_resolved(old(pools)) && implementations_declared(old(pools))
                ==> (r matches Ok(ids) && ids@.len() == 0) && final(pools).function_implementations == old(pools).function_implementations
                && final(pools).globals == old(pools).globals && final(pools).exprs@ == old(pools).exprs@,
            number_text(input@) && all_resolved(old(pools)) && implementations_declared(old(pools))
                ==> (r matches Ok(ids) && ids@.len() == 1 && ids@[0].0 == old(pools).exprs@.len()
                && final(pools).exprs@.len() == old(pools).exprs@.len() + 1
                && final(pools).exprs@.subrange(0, old(pools).exprs@.len() as int) == old(pools).exprs@
                && (final(pools).exprs@[ids@[0].0 as int] matches Expr::Int(v, _) && v == number_of(input@).unwrap()))
                && final(pools).function_implementations == old(pools).function_implementations
                && final(pools).globals == old(pools).globals,
    {
        let text = str_to_chars(input);
        if text.len() >= usize::MAX - 1 {
            return Err(chars_to_string(&str_to_chars("Program too long")));
        }
        let toks = match tokenize(&text) {
            Ok(t) => t,
            Err(e) => {
                let mut msg = str_to_chars("Parse error at character ");
                push_usize(&mut msg, e.position);
                push_str(&mut msg, ": unexpected character");
                return Err(chars_to_string(&msg));
            },
        };
        proof {
            lemma_tokens_fit(toks@, text@.len());
        }
        let src = Source { text, toks };
        proof {
            if number_text(input@) {
                assert(src.toks@ == seq![Token { kind: TokenKind::Number, start: 0, end: src.text@.len() as usize }]);
                assert(src.token_text(0) =~= input@);
                assert(lone_number(&src, 0));
            }
        }
        let expr_ids = match parse_program(&src, pools) {
            Ok(ids) => ids,
            Err(e) => return Err(e),
        };
        let ghost before_temp = *pools;
        let ghost blank_case = blank_text(input@) && input@.len() + 1 < usize::MAX && all_resolved(old(pools))
            && implementations_declared(old(pools));
        let ghost num_case = number_text(input@) && all_resolved(old(pools)) && implementations_declared(old(pools));
        proof {
            if blank_case {
                assert(src.toks@.len() == 0);
                assert(before_temp == *old(pools));
            }
            if num_case {
                assert(src.toks@ == seq![Token { kind: TokenKind::Number, start: 0, end: text@.len() as usize }]);
                assert(src.token_text(0) =~= input@);
                assert(lone_number(&src, 0));
                assert(number_read(&src, 0, old(pools), &before_temp, Ok::<(ExprId, usize), String>((expr_ids@[0], 1usize))));
                assert forall|j: int| 0 <= j < before_temp.exprs@.len() implies !(#[trigger] before_temp.exprs@[j] matches Expr::Var(d, _, _) && d.0 == usize::MAX) by {
                    if j < old(pools).exprs@.len() {
                        assert(before_temp.exprs@[j] == before_temp.exprs@.subrange(0, old(pools).exprs@.len() as int)[j]);
                    }
                }
            }
        }
        let mut i: usize = 0;
        while i < pools.function_implementations.len()
            invariant
                implementations_declared(&before_temp) ==> *pools == before_temp,
                blank_case ==> before_temp == *old(pools) && implementations_declared(&before_temp) && all_resolved(&before_temp),
                blank_case == (blank_text(input@) && input@.len() + 1 < usize::MAX && all_resolved(old(pools))
                    && implementations_declared(old(pools))),
                num_case ==> implementations_declared(&before_temp) && all_resolved(&before_temp) && expr_ids@.len() == 1
                    && number_read(&src, 0, old(pools), &before_temp, Ok::<(ExprId, usize), String>((expr_ids@[0], 1usize)))
                    && number_of(src.token_text(0)) == number_of(input@),
                num_case == (number_text(input@) && all_resolved(old(pools)) && implementations_declared(old(pools))),
                i <= pools.function_implementations@.len(),
                pools.wf(),
                extends(old(pools), pools),
                forall|k: int| 0 <= k < expr_ids@.len() ==> pools.valid_expr(#[trigger] expr_ids@[k]),
            decreases pools.function_implementations@.len() - i,
        {
            let name = pools.function_implementations[i].0;
            proof {
                if blank_case || num_case {
                    assert(crate::pools::assoc_index(before_temp.globals@, before_temp.function_implementations@[i as int].0) != -1);
                }
            }
            if pools.get_global_scheme(&name).is_none() {
                if pools.next_type_var >= usize::MAX {
                    proof {
                        assert(!blank_case);
                        assert(!num_case);
                    }
                    return Err(chars_to_string(&str_to_chars("Ran out of type variables")));
                }
                let temp_type = pools.fresh_type_var();
                let temp_scheme = TypeScheme::new(Vec::new(), temp_type);
                pools.bind_global_scheme(name, temp_scheme);
            }
            i = i + 1;
        }
        let ghost before = *pools;
        let undefined_vars = pools.backpatch_global_variables();
        proof {
            if all_resolved(&before) && undefined_vars@.len() > 0 {
                assert(crate::pools::unresolved_in(before.global_order@, before.exprs@, undefined_vars@[0]));
                let j = choose|j: int| 0 <= j < before.exprs@.len() && crate::pools::unresolved_name(before.global_order@, before.exprs@[j], undefined_vars@[0]);
                assert(!(before.exprs@[j] matches Expr::Var(d, _, _) && d.0 == usize::MAX));
            }
            if all_resolved(&before) {
                assert forall|j: int| 0 <= j < before.exprs@.len() implies #[trigger] pools.exprs@[j] == before.exprs@[j] by {
                    assert(pools.exprs@[j] == crate::pools::resolved_expr(before.global_order@, before.exprs@[j]));
                    assert(!(before.exprs@[j] matches Expr::Var(d, _, _) && d.0 == usize::MAX));
                }
                assert(pools.exprs@ =~= before.exprs@);
            }
        }
        if undefined_vars.len() > 0 {
            return Err(undefined_message(&undefined_vars));
        }
        proof {
            if num_case {
                assert(before == before_temp);
                assert(pools.exprs@ == before.exprs@);
            }
            if blank_case {
                assert(before == *old(pools));
                assert(expr_ids@.len() == 0);
                assert(pools.globals == before.globals);
                assert(pools.function_implementations == before.function_implementations);
            }
        }
        proof {
            assert forall|j: int| 0 <= j < pools.exprs@.len() implies !(#[trigger] pools.exprs@[j] matches Expr::Var(d, _, _) && d.0 == usize::MAX) by {
                let e = before.exprs@[j];
                match e {
                    Expr::Var(d, name, _) => {
                        if d.0 == usize::MAX && !before.global_order@.contains(name) {
                            assert(crate::pools::unresolved_name(before.global_order@, e, name));
                            assert(undefined_vars@.contains(name));
                        }
                    },
                    _ => {},
                }
            }
        }
        Ok(expr_ids)
    }
}

proof fn lemma_tokens_fit(toks: Seq<Token>, n: nat)
    requires
        tokens_placed(toks, n),
    ensures
        toks.len() <= n,
    decreases toks.len(),
{
    if toks.len() > 0 {
        let last = toks.len() - 1;
        assert(toks[last].start < toks[last].end && toks[last].end <= n);
        let prefix = toks.subrange(0, last);
        assert forall|i: int| 0 <= i < prefix.len() implies prefix[i].start < prefix[i].end && prefix[i].end <= toks[last].start by {
            assert(prefix[i] == toks[i]);
            assert(toks[i].end <= toks[last].start);
        }
        assert(tokens_placed(prefix, toks[last].start as nat)) by {
            assert forall|i: int, j: int| 0 <= i < j < prefix.len() implies #[trigger] prefix[i].end <= #[trigger] prefix[j].start by {
                assert(prefix[i] == toks[i]);
                assert(prefix[j] == toks[j]);
            }
        }
        lemma_tokens_fit(prefix, toks[last].start as nat);
    }
}

} // verus!
