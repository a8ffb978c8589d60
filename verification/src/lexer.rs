//! Splitting program text into tokens.
use vstd::prelude::*;

verus! {

/// The kinds of tokens of the language.
#[derive(Debug, Clone, Copy, PartialEq, Eq, Structural)]
pub enum TokenKind {
    /// A name starting with a lower-case letter or `_` (but not `_` alone).
    Lower,
    /// A name starting with an upper-case letter.
    Upper,
    /// An integer literal, possibly with a leading `-`.
    Number,
    /// A string literal with its quotes.
    Str,
    /// The `<...>` code of a foreign-function expression.
    FfiCode,
    Let,
    In,
    Fn,
    Match,
    With,
    Data,
    Fun,
    Forall,
    Exists,
    LParen,
    RParen,
    LBrace,
    RBrace,
    Comma,
    Colon,
    Semi,
    Dot,
    Equals,
    FatArrow,
    Arrow,
    Bar,
    PipeOp,
    ComposeOp,
    ApplyOp,
    Lt,
    Gt,
    ConsOp,
    Ellipsis,
    Bang,
    Underscore,
}

/// A token: its kind and the character range `start..end` it covers.
#[derive(Debug, Clone, Copy, PartialEq, Eq, Structural)]
pub struct Token {
    pub kind: TokenKind,
    pub start: usize,
    pub end: usize,
}

/// Every token covers a nonempty range of the text, and tokens follow one another.
pub open spec fn tokens_placed(tokens: Seq<Token>, n: nat) -> bool {
    &&& forall|i: int| #![trigger tokens[i]] 0 <= i < tokens.len() ==> tokens[i].start < tokens[i].end && tokens[i].end <= n
    &&& forall|i: int, j: int| 0 <= i < j < tokens.len() ==> #[trigger] tokens[i].end <= #[trigger] tokens[j].start
}

pub open spec fn is_lower_char(c: char) -> bool {
    'a' <= c <= 'z'
}

pub open spec fn is_upper_char(c: char) -> bool {
    'A' <= c <= 'Z'
}

pub open spec fn is_digit_char(c: char) -> bool {
    '0' <= c <= '9'
}

pub open spec fn is_ident_char(c: char) -> bool {
    is_lower_char(c) || is_upper_char(c) || is_digit_char(c) || c == '_'
}

/// A number alone: digits, after an optional `-` that digits follow.
#[verifier::opaque]
pub open spec fn numeral_chars(t: Seq<char>) -> bool {
    &&& t.len() > 0
    &&& is_digit_char(t[0]) || (t[0] == '-' && t.len() > 1)
    &&& forall|k: int| 1 <= k < t.len() ==> is_digit_char(#[trigger] t[k])
}

pub open spec fn is_space_char(c: char) -> bool {
    c == ' ' || c == '\t' || c == '\n' || c == '\r'
}

pub fn is_ident(c: char) -> (r: bool)
    ensures
        r == is_ident_char(c),
{
    ('a' <= c && c <= 'z') || ('A' <= c && c <= 'Z') || ('0' <= c && c <= '9') || c == '_'
}

pub fn is_digit(c: char) -> (r: bool)
    ensures
        r == is_digit_char(c),
{
    '0' <= c && c <= '9'
}

fn is_space(c: char) -> (r: bool)
    ensures
        r == is_space_char(c),
{
    c == ' ' || c == '\t' || c == '\n' || c == '\r'
}

/// Whether `text[start..end]` spells `word`.
pub fn span_is(text: &Vec<char>, start: usize, end: usize, word: &str) -> (r: bool)
    requires
        start <= end <= text@.len(),
    ensures
        r == (text@.subrange(start as int, end as int) == word@),
{
    let w = crate::text::str_to_chars(word);
    if end - start != w.len() {
        assert(text@.subrange(start as int, end as int).len() != word@.len());
        return false;
    }
    let mut i: usize = 0;
    while i < w.len()
        invariant
            start <= end <= text@.len(),
            end - start == w@.len(),
            w@ == word@,
            i <= w@.len(),
            forall|k: int| 0 <= k < i ==> text@[start + k] == w@[k],
        decreases w@.len() - i,
    {
        if text[start + i] != w[i] {
            assert(text@.subrange(start as int, end as int)[i as int] != word@[i as int]);
            return false;
        }
        i = i + 1;
    }
    assert(text@.subrange(start as int, end as int) =~= word@);
    true
}

/// The kind of a name token: the keyword it spells, `_`, or a lower-case name.
pub open spec fn word_kind(w: Seq<char>) -> TokenKind {
    if w == "let"@ {
        TokenKind::Let
    } else if w == "in"@ {
        TokenKind::In
    } else if w == "fn"@ {
        TokenKind::Fn
    } else if w == "match"@ {
        TokenKind::Match
    } else if w == "with"@ {
        TokenKind::With
    } else if w == "data"@ {
        TokenKind::Data
    } else if w == "fun"@ {
        TokenKind::Fun
    } else if w == "forall"@ {
        TokenKind::Forall
    } else if w == "exists"@ {
        TokenKind::Exists
    } else if w == "_"@ {
        TokenKind::Underscore
    } else {
        TokenKind::Lower
    }
}

/// The keyword spelled by a name, if it is one.
fn keyword_kind(text: &Vec<char>, start: usize, end: usize) -> (r: TokenKind)
    requires
        start <= end <= text@.len(),
    ensures
        r == word_kind(text@.subrange(start as int, end as int)),
{
    if span_is(text, start, end, "let") {
        TokenKind::Let
    } else if span_is(text, start, end, "in") {
        TokenKind::In
    } else if span_is(text, start, end, "fn") {
        TokenKind::Fn
    } else if span_is(text, start, end, "match") {
        TokenKind::Match
    } else if span_is(text, start, end, "with") {
        TokenKind::With
    } else if span_is(text, start, end, "data") {
        TokenKind::Data
    } else if span_is(text, start, end, "fun") {
        TokenKind::Fun
    } else if span_is(text, start, end, "forall") {
        TokenKind::Forall
    } else if span_is(text, start, end, "exists") {
        TokenKind::Exists
    } else if span_is(text, start, end, "_") {
        TokenKind::Underscore
    } else {
        TokenKind::Lower
    }
}

/// Why the text could not be split into tokens: the position of the offending character.
#[derive(Debug, Clone, Copy)]
pub struct LexError {
    pub position: usize,
}

/// The text of a token spells a token of its kind.
pub open spec fn token_spelled(kind: TokenKind, t: Seq<char>) -> bool {
    match kind {
        TokenKind::Lower | TokenKind::Let | TokenKind::In | TokenKind::Fn | TokenKind::Match | TokenKind::With
        | TokenKind::Data | TokenKind::Fun | TokenKind::Underscore => is_word(t) && !is_upper_char(t[0])
            && word_kind(t) == kind,
        TokenKind::Forall => (is_word(t) && !is_upper_char(t[0]) && word_kind(t) == kind) || t == seq!['\u{2200}'],
        TokenKind::Exists => (is_word(t) && !is_upper_char(t[0]) && word_kind(t) == kind) || t == seq!['\u{2203}'],
        TokenKind::Upper => is_word(t) && is_upper_char(t[0]),
        TokenKind::Number => t.len() >= 1 && (is_digit_char(t[0]) || t[0] == '-') && forall|k: int|
            1 <= k < t.len() ==> is_digit_char(#[trigger] t[k]),
        TokenKind::Str => t.len() >= 2 && t[0] == '"' && t.last() == '"' && forall|k: int|
            1 <= k < t.len() - 1 ==> #[trigger] t[k] != '"',
        TokenKind::FfiCode => t.len() >= 2 && t[0] == '<' && t.last() == '>',
        TokenKind::LParen => t == "("@,
        TokenKind::RParen => t == ")"@,
        TokenKind::LBrace => t == "{"@,
        TokenKind::RBrace => t == "}"@,
        TokenKind::Comma => t == ","@,
        TokenKind::Colon => t == ":"@,
        TokenKind::Semi => t == ";"@,
        TokenKind::Dot => t == "."@,
        TokenKind::Equals => t == "="@,
        TokenKind::FatArrow => t == "=>"@,
        TokenKind::Arrow => t == "->"@ || t == seq!['\u{2192}'],
        TokenKind::Bar => t == "|"@,
        TokenKind::PipeOp => t == "|>"@,
        TokenKind::ComposeOp => t == "<>"@,
        TokenKind::ApplyOp => t == "<$>"@,
        TokenKind::Lt => t == "<"@,
        TokenKind::Gt => t == ">"@,
        TokenKind::ConsOp => t == "::"@,
        TokenKind::Ellipsis => t == "..."@,
        TokenKind::Bang => t == "!"@,
    }
}

/// A name: identifier characters, not starting with a digit.
pub open spec fn is_word(t: Seq<char>) -> bool {
    &&& t.len() >= 1
    &&& !is_digit_char(t[0])
    &&& forall|k: int| 0 <= k < t.len() ==> is_ident_char(#[trigger] t[k])
}

/// Every token spells a token of its kind.
pub open spec fn tokens_spelled(tokens: Seq<Token>, text: Seq<char>) -> bool {
    forall|i: int| #![trigger tokens[i]] 0 <= i < tokens.len() ==> token_spelled(
        tokens[i].kind,
        text.subrange(tokens[i].start as int, tokens[i].end as int),
    )
}

/// Position `k` follows a `//` on its line.
pub open spec fn in_comment(text: Seq<char>, k: int) -> bool {
    exists|j: int|
        0 <= j && j + 1 < text.len() && j <= k && #[trigger] text[j] == '/' && text[j + 1] == '/' && forall|m: int|
            j <= m <= k ==> #[trigger] text[m] != '\n'
}

/// Character `k` lies inside one of the tokens.
pub open spec fn in_token(tokens: Seq<Token>, k: int) -> bool {
    exists|i: int| 0 <= i < tokens.len() && #[trigger] tokens[i].start <= k < tokens[i].end
}

/// Every character of the text is a space, lies in a token, or follows `//` on its line.
pub open spec fn tokens_cover(tokens: Seq<Token>, text: Seq<char>) -> bool {
    forall|k: int| 0 <= k < text.len() ==> is_space_char(#[trigger] text[k]) || in_token(tokens, k) || in_comment(text, k)
}

/// Splits `text` into tokens; spaces and `//` comments separate tokens.
pub fn tokenize(text: &Vec<char>) -> (r: Result<Vec<Token>, LexError>)
    ensures
        r matches Ok(toks) ==> tokens_placed(toks@, text@.len()) && tokens_spelled(toks@, text@) && tokens_cover(toks@, text@),
        r matches Err(e) ==> e.position < text@.len(),
        (forall|k: int| 0 <= k < text@.len() ==> is_space_char(#[trigger] text@[k])) ==> (r matches Ok(toks) && toks@.len() == 0),
        numeral_chars(text@) ==> (r matches Ok(toks) && toks@ == seq![Token { kind: TokenKind::Number, start: 0, end: text@.len() as usize }]),
{
    let n = text.len();
    let mut tokens: Vec<Token> = Vec::new();
    let mut pos: usize = 0;
    let mut after_ffi_open = false;
    assert(numeral_state(pos, n, tokens@, after_ffi_open)) by {
        reveal(numeral_state);
    }
    while pos < n
        invariant
            pos <= n,
            n == text@.len(),
            tokens_placed(tokens@, n as nat),
            tokens_spelled(tokens@, text@),
            forall|i: int| 0 <= i < tokens@.len() ==> #[trigger] tokens@[i].end <= pos,
            forall|k: int| 0 <= k < pos ==> is_space_char(#[trigger] text@[k]) || in_token(tokens@, k) || in_comment(text@, k),
            (forall|k: int| 0 <= k < text@.len() ==> is_space_char(#[trigger] text@[k])) ==> tokens@.len() == 0,
            numeral_chars(text@) ==> numeral_state(pos, n, tokens@, after_ffi_open),
        decreases n - pos,
    {
        proof {
            if numeral_chars(text@) {
                assert(pos == 0 && tokens@.len() == 0 && !after_ffi_open) by {
                    reveal(numeral_state);
                }
                assert(is_digit_char(text@[0]) || (text@[0] == '-' && n > 1 && is_digit_char(text@[1]))) by {
                    reveal(numeral_chars);
                }
            }
        }
        let c = text[pos];
        if is_space(c) {
            pos = pos + 1;
            continue;
        }
        if c == '/' && pos + 1 < n && text[pos + 1] == '/' {
            let mut q = pos;
            while q < n && text[q] != '\n'
                invariant
                    pos <= q <= n,
                    n == text@.len(),
                    forall|m: int| pos <= m < q ==> #[trigger] text@[m] != '\n',
                    pos + 1 < n && text@[pos as int] == '/' && text@[pos + 1] == '/',
                decreases n - q,
            {
                q = q + 1;
            }
            proof {
                assert forall|k: int| pos <= k < q implies in_comment(text@, k) by {
                    assert(text@[pos as int] == '/');
                }
            }
            proof {
                assert(!is_space_char(text@[pos as int]));
            }
            pos = q;
            continue;
        }
        proof {
            assert(!is_space_char(text@[pos as int]));
        }
        let start = pos;
        let kind: TokenKind;
        if after_ffi_open && c == '<' {
            // foreign code: up to the first `>` followed by `,` or `)`
            let mut q = pos + 1;
            let mut found = false;
            while q < n && !found
                invariant
                    pos < q <= n,
                    n == text@.len(),
                    found ==> q < n && text@[q as int] == '>',
                decreases n - q, if found { 0nat } else { 1nat },
            {
                if text[q] == '>' {
                    let mut k = q + 1;
                    while k < n && is_space(text[k])
                        invariant
                            q < k <= n,
                            n == text@.len(),
                        decreases n - k,
                    {
                        k = k + 1;
                    }
                    if k < n && (text[k] == ',' || text[k] == ')') {
                        found = true;
                    } else {
                        q = q + 1;
                    }
                } else {
                    q = q + 1;
                }
            }
            if !found {
                return Err(LexError { position: pos });
            }
            kind = TokenKind::FfiCode;
            pos = q + 1;
        } else if is_ident(c) && !is_digit(c) {
            let mut q = pos;
            while q < n && is_ident(text[q])
                invariant
                    pos <= q <= n,
                    n == text@.len(),
                    forall|k: int| pos <= k < q ==> is_ident_char(#[trigger] text@[k]),
                decreases n - q,
            {
                q = q + 1;
            }
            kind = if 'A' <= c && c <= 'Z' {
                TokenKind::Upper
            } else {
                keyword_kind(text, pos, q)
            };
            pos = q;
        } else if is_digit(c) || (c == '-' && pos + 1 < n && is_digit(text[pos + 1])) {
            let mut q = pos + 1;
            while q < n && is_digit(text[q])
                invariant
                    pos < q <= n,
                    n == text@.len(),
                    forall|k: int| pos < k < q ==> is_digit_char(#[trigger] text@[k]),
                decreases n - q,
            {
                q = q + 1;
            }
            proof {
                if numeral_chars(text@) && q < n {
                    assert(is_digit_char(text@[q as int])) by {
                        reveal(numeral_chars);
                    }
                }
            }
            kind = TokenKind::Number;
            pos = q;
        } else if c == '"' {
            let mut q = pos + 1;
            while q < n && text[q] != '"'
                invariant
                    pos < q <= n,
                    n == text@.len(),
                    forall|k: int| pos < k < q ==> #[trigger] text@[k] != '"',
                decreases n - q,
            {
                q = q + 1;
            }
            if q >= n {
                return Err(LexError { position: pos });
            }
            kind = TokenKind::Str;
            pos = q + 1;
        } else if c == '\u{2200}' {
            kind = TokenKind::Forall;
            pos = pos + 1;
        } else if c == '\u{2203}' {
            kind = TokenKind::Exists;
            pos = pos + 1;
        } else {
            let next = if pos + 1 < n {
                text[pos + 1]
            } else {
                ' '
            };
            let next2 = if n - pos > 2 {
                text[pos + 2]
            } else {
                ' '
            };
            if c == '(' {
                kind = TokenKind::LParen;
                pos = pos + 1;
            } else if c == ')' {
                kind = TokenKind::RParen;
                pos = pos + 1;
            } else if c == '{' {
                kind = TokenKind::LBrace;
                pos = pos + 1;
            } else if c == '}' {
                kind = TokenKind::RBrace;
                pos = pos + 1;
            } else if c == ',' {
                kind = TokenKind::Comma;
                pos = pos + 1;
            } else if c == ';' {
                kind = TokenKind::Semi;
                pos = pos + 1;
            } else if c == '!' {
                kind = TokenKind::Bang;
                pos = pos + 1;
            } else if c == ':' && next == ':' {
                kind = TokenKind::ConsOp;
                pos = pos + 2;
            } else if c == ':' {
                kind = TokenKind::Colon;
                pos = pos + 1;
            } else if c == '.' && next == '.' && next2 == '.' {
                kind = TokenKind::Ellipsis;
                pos = pos + 3;
            } else if c == '.' {
                kind = TokenKind::Dot;
                pos = pos + 1;
            } else if c == '=' && next == '>' {
                kind = TokenKind::FatArrow;
                pos = pos + 2;
            } else if c == '=' {
                kind = TokenKind::Equals;
                pos = pos + 1;
            } else if c == '-' && next == '>' {
                kind = TokenKind::Arrow;
                pos = pos + 2;
            } else if c == '|' && next == '>' {
                kind = TokenKind::PipeOp;
                pos = pos + 2;
            } else if c == '|' {
                kind = TokenKind::Bar;
                pos = pos + 1;
            } else if c == '<' && next == '>' {
                kind = TokenKind::ComposeOp;
                pos = pos + 2;
            } else if c == '<' && next == '$' && next2 == '>' {
                kind = TokenKind::ApplyOp;
                pos = pos + 3;
            } else if c == '<' {
                kind = TokenKind::Lt;
                pos = pos + 1;
            } else if c == '>' {
                kind = TokenKind::Gt;
                pos = pos + 1;
            } else if c == '\u{2192}' {
                kind = TokenKind::Arrow;
                pos = pos + 1;
            } else {
                return Err(LexError { position: pos });
            }
        }
        let prev_is_ffi_paren = kind == TokenKind::LParen && tokens.len() >= 2
            && tokens[tokens.len() - 1].kind == TokenKind::Bang
            && tokens[tokens.len() - 2].kind == TokenKind::Lower
            && span_is(text, tokens[tokens.len() - 2].start, tokens[tokens.len() - 2].end, "ffi");
        after_ffi_open = prev_is_ffi_paren;
        let ghost t0 = tokens@;
        proof {
            let t = text@.subrange(start as int, pos as int);
            assert(t.len() >= 1 && t[0] == c);
            reveal_strlit("(");
            reveal_strlit(")");
            reveal_strlit("{");
            reveal_strlit("}");
            reveal_strlit(",");
            reveal_strlit(";");
            reveal_strlit("!");
            reveal_strlit("::");
            reveal_strlit(":");
            reveal_strlit("...");
            reveal_strlit(".");
            reveal_strlit("=>");
            reveal_strlit("=");
            reveal_strlit("->");
            reveal_strlit("|>");
            reveal_strlit("|");
            reveal_strlit("<>");
            reveal_strlit("<$>");
            reveal_strlit("<");
            reveal_strlit(">");
            if t.len() >= 2 {
                assert(t[1] == text@[start + 1]);
            }
            if t.len() >= 3 {
                assert(t[2] == text@[start + 2]);
            }
            assert forall|k: int| 0 <= k < t.len() implies t[k] == text@[start + k] by {}
            assert(token_spelled(kind, t)) by {
                if kind == TokenKind::LParen {
                    assert(t =~= "("@);
                }
                if kind == TokenKind::RParen {
                    assert(t =~= ")"@);
                }
                if kind == TokenKind::LBrace {
                    assert(t =~= "{"@);
                }
                if kind == TokenKind::RBrace {
                    assert(t =~= "}"@);
                }
                if kind == TokenKind::Comma {
                    assert(t =~= ","@);
                }
                if kind == TokenKind::Semi {
                    assert(t =~= ";"@);
                }
                if kind == TokenKind::Bang {
                    assert(t =~= "!"@);
                }
                if kind == TokenKind::ConsOp {
                    assert(t =~= "::"@);
                }
                if kind == TokenKind::Colon {
                    assert(t =~= ":"@);
                }
                if kind == TokenKind::Ellipsis {
                    assert(t =~= "..."@);
                }
                if kind == TokenKind::Dot {
                    assert(t =~= "."@);
                }
                if kind == TokenKind::FatArrow {
                    assert(t =~= "=>"@);
                }
                if kind == TokenKind::Equals {
                    assert(t =~= "="@);
                }
                if kind == TokenKind::PipeOp {
                    assert(t =~= "|>"@);
                }
                if kind == TokenKind::Bar {
                    assert(t =~= "|"@);
                }
                if kind == TokenKind::ComposeOp {
                    assert(t =~= "<>"@);
                }
                if kind == TokenKind::ApplyOp {
                    assert(t =~= "<$>"@);
                }
                if kind == TokenKind::Lt {
                    assert(t =~= "<"@);
                }
                if kind == TokenKind::Gt {
                    assert(t =~= ">"@);
                }
                if kind == TokenKind::Arrow {
                    if c == '-' {
                        assert(t =~= "->"@);
                    } else {
                        assert(t =~= seq!['\u{2192}']);
                    }
                }
                if kind == TokenKind::Exists && c == '\u{2203}' {
                    assert(t =~= seq!['\u{2203}']);
                }
                if kind == TokenKind::Forall && c == '\u{2200}' {
                    assert(t =~= seq!['\u{2200}']);
                }
                if kind == TokenKind::Number || kind == TokenKind::Str {
                    assert forall|k: int| 1 <= k < t.len() implies t[k] == text@[start + k] by {}
                }
                if kind == TokenKind::FfiCode {
                    assert(t.last() == text@[pos - 1]);
                }
                if kind == TokenKind::Str {
                    assert(t.last() == text@[pos - 1]);
                }
            }
        }
        tokens.push(Token { kind, start, end: pos });
        proof {
            if numeral_chars(text@) {
                assert(start == 0 && kind == TokenKind::Number && pos == n);
                assert(tokens@ =~= seq![Token { kind: TokenKind::Number, start: 0, end: n }]);
                assert(numeral_state(pos, n, tokens@, after_ffi_open)) by {
                    reveal(numeral_state);
                }
            }
            assert(tokens@.last() == Token { kind, start, end: pos });
            assert forall|k: int| 0 <= k < pos implies is_space_char(#[trigger] text@[k]) || in_token(tokens@, k) || in_comment(text@, k) by {
                if start <= k {
                    assert(tokens@[tokens@.len() - 1].start <= k < tokens@[tokens@.len() - 1].end);
                } else if in_token(t0, k) {
                    let i = choose|i: int| 0 <= i < t0.len() && #[trigger] t0[i].start <= k < t0[i].end;
                    assert(tokens@[i] == t0[i]);
                }
            }
            assert forall|i: int, j: int| 0 <= i < j < tokens@.len() implies #[trigger] tokens@[i].end <= #[trigger] tokens@[j].start by {
                if j < t0.len() {
                    assert(t0[i].end <= t0[j].start);
                } else {
                    assert(tokens@[i] == t0[i]);
                }
            }
        }
    }
    proof {
        if numeral_chars(text@) {
            reveal(numeral_state);
            reveal(numeral_chars);
        }
    }
    Ok(tokens)
}

/// Tokenizing a number alone: nothing read yet, or the whole text read as one number.
#[verifier::opaque]
pub open spec fn numeral_state(pos: usize, n: usize, tokens: Seq<Token>, after_ffi_open: bool) -> bool {
    (pos == 0 && tokens.len() == 0 && !after_ffi_open) || (pos == n && tokens == seq![Token { kind: TokenKind::Number, start: 0, end: n }])
}

} // verus!
