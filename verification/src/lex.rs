use vstd::prelude::*;
use vstd::string::StrSliceExecFns;

verus! {

// ---------------------------------------------------------------------------
// Source positions
// ---------------------------------------------------------------------------

/// Mathematical model of a source position: `row` counts line breaks seen so
/// far, `col` counts characters since the last line break.
pub ghost struct PosM {
    pub row: int,
    pub col: int,
}

/// A source position. By historical accident of this code base the field
/// `column` holds the row (line index) and the field `line` holds the column
/// within that line; the view maps them to honest names.
#[derive(Debug, Clone, Copy, PartialEq)]
pub struct PPosition {
    pub column: usize,
    pub line: usize,
}

impl View for PPosition {
    type V = PosM;

    open spec fn view(&self) -> PosM {
        PosM { row: self.column as int, col: self.line as int }
    }
}

/// The position after reading the first `i` characters of `s`: a line break
/// starts a new row, any other character widens the current column.
pub open spec fn pos_at(s: Seq<char>, i: int) -> PosM
    decreases i,
{
    if i <= 0 {
        PosM { row: 0, col: 0 }
    } else {
        let p = pos_at(s, i - 1);
        if s[i - 1] == '\n' {
            PosM { row: p.row + 1, col: 0 }
        } else {
            PosM { row: p.row, col: p.col + 1 }
        }
    }
}

pub proof fn lemma_pos_at_bounds(s: Seq<char>, i: int)
    ensures
        0 <= pos_at(s, i).row,
        0 <= pos_at(s, i).col,
        pos_at(s, i).row <= if i >= 0 { i } else { 0 },
        pos_at(s, i).col <= if i >= 0 { i } else { 0 },
    decreases i,
{
    if i > 0 {
        lemma_pos_at_bounds(s, i - 1);
    }
}

impl PPosition {
    /// Move to the start of the next row.
    fn advance_column(&mut self)
        requires
            old(self).column < usize::MAX,
        ensures
            final(self)@ == (PosM { row: old(self)@.row + 1, col: 0 }),
    {
        self.line = 0;
        self.column = self.column + 1;
    }

    /// Move one column to the right within the current row.
    fn advance_line(&mut self)
        requires
            old(self).line < usize::MAX,
        ensures
            final(self)@ == (PosM { row: old(self)@.row, col: old(self)@.col + 1 }),
    {
        self.line = self.line + 1;
    }

    /// The sum of the two coordinates. Superseded as a measure of a position:
    /// document offsets come from `Document::offset_at`, which accounts for
    /// line lengths; this sum does not.
    pub fn to_pointer(&self) -> (r: usize)
        requires
            self.line + self.column <= usize::MAX,
        ensures
            r == self.line + self.column,
    {
        self.line + self.column
    }
}

// ---------------------------------------------------------------------------
// Tokens
// ---------------------------------------------------------------------------

/// A token kind together with its payload, if any.
#[derive(Debug, Clone, PartialEq)]
pub enum TToken {
    WS,
    Text(String),
    OpenTag,
    Ident(String),
    Int(u32),
    String(String),
    Dot,
    ArgumentInitalizer,
    ArgumentSeperator,
    CloseTag,
}

/// Model of a token kind.
pub ghost enum TokM {
    WS,
    Text(Seq<char>),
    OpenTag,
    Ident(Seq<char>),
    Int(u32),
    Str(Seq<char>),
    Dot,
    ArgInit,
    ArgSep,
    CloseTag,
}

impl View for TToken {
    type V = TokM;

    open spec fn view(&self) -> TokM {
        match self {
            TToken::WS => TokM::WS,
            TToken::Text(t) => TokM::Text(t@),
            TToken::OpenTag => TokM::OpenTag,
            TToken::Ident(t) => TokM::Ident(t@),
            TToken::Int(v) => TokM::Int(*v),
            TToken::String(t) => TokM::Str(t@),
            TToken::Dot => TokM::Dot,
            TToken::ArgumentInitalizer => TokM::ArgInit,
            TToken::ArgumentSeperator => TokM::ArgSep,
            TToken::CloseTag => TokM::CloseTag,
        }
    }
}

/// A token with the span of characters it was read from; `end` is exclusive.
#[derive(Debug, Clone)]
pub struct Token {
    pub token: TToken,
    pub start: PPosition,
    pub end: PPosition,
}

/// Model of a token with its span.
pub ghost struct TokenM {
    pub tok: TokM,
    pub start: PosM,
    pub end: PosM,
}

impl View for Token {
    type V = TokenM;

    open spec fn view(&self) -> TokenM {
        TokenM { tok: self.token@, start: self.start@, end: self.end@ }
    }
}

// ---------------------------------------------------------------------------
// Character classes and scanning runs
// ---------------------------------------------------------------------------

pub open spec fn is_alpha_char(c: char) -> bool {
    ('a' <= c && c <= 'z') || ('A' <= c && c <= 'Z') || c == '_'
}

pub open spec fn is_digit_char(c: char) -> bool {
    '0' <= c && c <= '9'
}

pub open spec fn is_ws_char(c: char) -> bool {
    c == ' ' || c == '\r' || c == '\t' || c == '\n'
}

/// Characters that end a literal text run.
pub open spec fn text_stop() -> spec_fn(char) -> bool {
    |c: char| c == '{' || c == '\n'
}

/// Characters that end an identifier run.
pub open spec fn ident_stop() -> spec_fn(char) -> bool {
    |c: char| !is_alpha_char(c)
}

/// Characters that end a digit run.
pub open spec fn digit_stop() -> spec_fn(char) -> bool {
    |c: char| !is_digit_char(c)
}

/// The closing quote of a string literal.
pub open spec fn quote_stop() -> spec_fn(char) -> bool {
    |c: char| c == '"'
}

/// What remains of `s` after index `i`, clamped at zero.
pub open spec fn rem(len: int, i: int) -> nat {
    if i <= len {
        (len - i) as nat
    } else {
        0
    }
}

/// The number of characters from index `i` on before the first one satisfying
/// `p` (or before the end of `s`).
pub open spec fn run_len(s: Seq<char>, i: int, p: spec_fn(char) -> bool) -> nat
    decreases rem(s.len() as int, i),
{
    if i < 0 || i >= s.len() || p(s[i]) {
        0
    } else {
        (1 + run_len(s, i + 1, p)) as nat
    }
}

/// The value of a run of decimal digits.
pub open spec fn digits_val(ds: Seq<char>) -> int
    decreases ds.len(),
{
    if ds.len() == 0 {
        0
    } else {
        digits_val(ds.drop_last()) * 10 + (ds.last() as int - '0' as int)
    }
}

// ---------------------------------------------------------------------------
// The specification tokenizer
// ---------------------------------------------------------------------------

/// How a scan can fail; scanning aborts at the first failure.
pub ghost enum LexErrKind {
    UnterminatedString,
    IntOverflow,
    UnexpectedChar,
}

/// A scan failure: its kind, and the index of the character whose token
/// could not be read — the position the failure is anchored at.
pub ghost struct LexErrM {
    pub kind: LexErrKind,
    pub at: int,
}

/// The message each scan failure carries.
pub open spec fn lex_err_msg(e: LexErrM) -> Seq<char> {
    match e.kind {
        LexErrKind::UnterminatedString => "Unterminated string"@,
        LexErrKind::IntOverflow => "number too large to fit in target type"@,
        LexErrKind::UnexpectedChar => "Unexpected token"@,
    }
}

pub open spec fn res_prepend(pre: Seq<TokenM>, r: Result<Seq<TokenM>, LexErrM>) -> Result<
    Seq<TokenM>,
    LexErrM,
> {
    match r {
        Ok(ts) => Ok(pre + ts),
        Err(e) => Err(e),
    }
}

pub open spec fn tok_m(s: Seq<char>, t: TokM, a: int, b: int) -> TokenM {
    TokenM { tok: t, start: pos_at(s, a), end: pos_at(s, b) }
}

/// The tokens of `s` from index `i` on. `text_mode` is true outside `{...}`
/// tags: there, a character that is not whitespace and not a brace starts a
/// literal text run that stops only at `{`, at a line break or at the end.
/// In tag mode the scanner reads identifiers, integers, quoted strings and
/// punctuation, and fails on anything else.
pub open spec fn scan_from(s: Seq<char>, i: int, text_mode: bool) -> Result<Seq<TokenM>, LexErrM>
    decreases rem(s.len() as int, i),
{
    if i < 0 || i >= s.len() {
        Ok(Seq::empty())
    } else {
        let c = s[i];
        if is_ws_char(c) {
            res_prepend(seq![tok_m(s, TokM::WS, i, i + 1)], scan_from(s, i + 1, text_mode))
        } else if c == '{' {
            res_prepend(seq![tok_m(s, TokM::OpenTag, i, i + 1)], scan_from(s, i + 1, false))
        } else if c == '}' {
            res_prepend(seq![tok_m(s, TokM::CloseTag, i, i + 1)], scan_from(s, i + 1, true))
        } else if text_mode {
            let j = i + 1 + run_len(s, i + 1, text_stop());
            res_prepend(
                seq![tok_m(s, TokM::Text(s.subrange(i, j)), i, j)],
                scan_from(s, j, true),
            )
        } else if c == '.' {
            res_prepend(seq![tok_m(s, TokM::Dot, i, i + 1)], scan_from(s, i + 1, false))
        } else if c == ';' {
            res_prepend(seq![tok_m(s, TokM::ArgSep, i, i + 1)], scan_from(s, i + 1, false))
        } else if c == '|' {
            res_prepend(seq![tok_m(s, TokM::ArgInit, i, i + 1)], scan_from(s, i + 1, false))
        } else if c == '"' {
            let j = i + 1 + run_len(s, i + 1, quote_stop());
            if j >= s.len() {
                Err(LexErrM { kind: LexErrKind::UnterminatedString, at: i })
            } else {
                res_prepend(
                    seq![tok_m(s, TokM::Str(s.subrange(i + 1, j)), i, j + 1)],
                    scan_from(s, j + 1, false),
                )
            }
        } else if is_alpha_char(c) {
            let j = i + 1 + run_len(s, i + 1, ident_stop());
            res_prepend(
                seq![tok_m(s, TokM::Ident(s.subrange(i, j)), i, j)],
                scan_from(s, j, false),
            )
        } else if is_digit_char(c) {
            let j = i + 1 + run_len(s, i + 1, digit_stop());
            if digits_val(s.subrange(i, j)) > u32::MAX {
                Err(LexErrM { kind: LexErrKind::IntOverflow, at: i })
            } else {
                res_prepend(
                    seq![tok_m(s, TokM::Int(digits_val(s.subrange(i, j)) as u32), i, j)],
                    scan_from(s, j, false),
                )
            }
        } else {
            Err(LexErrM { kind: LexErrKind::UnexpectedChar, at: i })
        }
    }
}

/// The whole token sequence of `s`, or the first failure.
pub open spec fn scan_spec(s: Seq<char>) -> Result<Seq<TokenM>, LexErrM> {
    scan_from(s, 0, true)
}


// ---------------------------------------------------------------------------
// Run-length lemmas
// ---------------------------------------------------------------------------

/// A scan that saw no stopping character up to `k`, and a stop (or the end)
/// at `k`, pins the run length.
proof fn lemma_run_len_eq(s: Seq<char>, i: int, k: int, p: spec_fn(char) -> bool)
    requires
        0 <= i <= k <= s.len(),
        forall|m: int| i <= m < k ==> !p(#[trigger] s[m]),
        k == s.len() || p(s[k]),
    ensures
        run_len(s, i, p) == k - i,
    decreases k - i,
{
    if i < k {
        lemma_run_len_eq(s, i + 1, k, p);
    }
}

// ---------------------------------------------------------------------------
// The executable tokenizer
// ---------------------------------------------------------------------------

/// The tokenizer: owns the source text and accumulates tokens.
#[derive(Debug)]
pub struct Lexer {
    pub tokens: Vec<Token>,
    pub pointer: usize,
    pub source: String,
    pub position: PPosition,
    pub is_text: bool,
}

impl Lexer {
    /// The characters of the source this lexer was built from.
    pub open spec fn src(&self) -> Seq<char> {
        self.source@
    }

    pub fn from_source(program: &str) -> (r: Self)
        ensures
            r.src() == program@,
            r.tokens@ == Seq::<Token>::empty(),
            r.pointer == 0,
            r.position@ == (PosM { row: 0, col: 0 }),
            r.is_text,
    {
        Lexer {
            tokens: Vec::new(),
            pointer: 0,
            source: program.to_owned(),
            position: PPosition { column: 0, line: 0 },
            is_text: true,
        }
    }

    fn is_at_end(&self) -> (r: bool)
        ensures
            r == (self.pointer >= self.src().len()),
    {
        self.pointer >= self.source.as_str().unicode_len()
    }

    fn peek(&self) -> (r: Option<char>)
        ensures
            r == if self.pointer < self.src().len() {
                Some(self.src()[self.pointer as int])
            } else {
                None::<char>
            },
    {
        if self.is_at_end() {
            None
        } else {
            Some(self.source.as_str().get_char(self.pointer))
        }
    }

    fn advance(&mut self) -> (r: Option<char>)
        requires
            old(self).pointer < usize::MAX,
        ensures
            final(self).pointer == old(self).pointer + 1,
            final(self).src() == old(self).src(),
            final(self).tokens == old(self).tokens,
            final(self).position == old(self).position,
            final(self).is_text == old(self).is_text,
            r == if old(self).pointer < old(self).src().len() {
                Some(old(self).src()[old(self).pointer as int])
            } else {
                None::<char>
            },
    {
        let c = self.peek();
        self.pointer = self.pointer + 1;
        c
    }

    /// Scan the whole source. On success the accumulated `tokens` are exactly
    /// the tokens `scan_spec` ascribes to the source; on failure the partial
    /// token list is not meaningful and the error carries a short message.
    #[verifier::loop_isolation(false)]
    pub fn scan_tokens(&mut self) -> (r: Result<(), String>)
        requires
            old(self).pointer == 0,
            old(self).tokens@ == Seq::<Token>::empty(),
            old(self).position@ == (PosM { row: 0, col: 0 }),
            old(self).is_text,
        ensures
            final(self).src() == old(self).src(),
            r is Ok <==> scan_spec(old(self).src()) is Ok,
            scan_spec(old(self).src()) matches Err(e) ==> r matches Err(msg) && msg@ == lex_err_msg(
                e,
            ) && final(self).position@ == pos_at(old(self).src(), e.at),
            scan_spec(old(self).src()) matches Ok(ts) ==> {
                &&& final(self).tokens@.map_values(|t: Token| t@) == ts
                &&& final(self).pointer == old(self).src().len()
                &&& final(self).position@ == pos_at(old(self).src(), old(self).src().len() as int)
            },
    {
        let len = self.source.as_str().unicode_len();
        let ghost s = self.source@;
        while self.pointer < len
            invariant
                self.src() == s,
                self.pointer <= len,
                self.position@ == pos_at(s, self.pointer as int),
                res_prepend(
                    self.tokens@.map_values(|t: Token| t@),
                    scan_from(s, self.pointer as int, self.is_text),
                ) == scan_spec(s),
            decreases len - self.pointer,
        {
            let ghost i = self.pointer as int;
            let ghost pre = self.tokens@;
            let start = self.position;
            let c = self.source.as_str().get_char(self.pointer);
            proof {
                lemma_pos_at_bounds(s, i);
            }
            let cu = c as u32;
            if cu == 32 || cu == 13 || cu == 9 || cu == 10 {
                // whitespace: ' ', '\r', '\t', '\n'
                self.pointer = self.pointer + 1;
                if cu == 10 {
                    self.position.advance_column();
                } else {
                    self.position.advance_line();
                }
                let tok = Token { token: TToken::WS, start, end: self.position };
                let ghost tm = tok@;
                self.tokens.push(tok);
                proof {
                    step_token(s, pre, self.tokens@, tok_m(s, TokM::WS, i, i + 1), tm);
                }
            } else if cu == 123 {
                // '{'
                self.is_text = false;
                self.pointer = self.pointer + 1;
                self.position.advance_line();
                let tok = Token { token: TToken::OpenTag, start, end: self.position };
                let ghost tm = tok@;
                self.tokens.push(tok);
                proof {
                    step_token(s, pre, self.tokens@, tok_m(s, TokM::OpenTag, i, i + 1), tm);
                }
            } else if cu == 125 {
                // '}'
                self.is_text = true;
                self.pointer = self.pointer + 1;
                self.position.advance_line();
                let tok = Token { token: TToken::CloseTag, start, end: self.position };
                let ghost tm = tok@;
                self.tokens.push(tok);
                proof {
                    step_token(s, pre, self.tokens@, tok_m(s, TokM::CloseTag, i, i + 1), tm);
                }
            } else if self.is_text {
                let j = find_stop_text(&self.source, self.pointer + 1);
                let content = self.source.as_str().substring_char(self.pointer, j).to_owned();
                let mut pos = self.position;
                advance_position(&mut pos, &self.source, self.pointer, j);
                self.pointer = j;
                self.position = pos;
                let tok = Token { token: TToken::Text(content), start, end: pos };
                let ghost tm = tok@;
                self.tokens.push(tok);
                proof {
                    step_token(
                        s,
                        pre,
                        self.tokens@,
                        tok_m(s, TokM::Text(s.subrange(i, j as int)), i, j as int),
                        tm,
                    );
                }
            } else if cu == 46 || cu == 59 || cu == 124 {
                // '.', ';', '|'
                self.pointer = self.pointer + 1;
                self.position.advance_line();
                let kind = if cu == 46 {
                    TToken::Dot
                } else if cu == 59 {
                    TToken::ArgumentSeperator
                } else {
                    TToken::ArgumentInitalizer
                };
                let tok = Token { token: kind, start, end: self.position };
                let ghost tm = tok@;
                self.tokens.push(tok);
                proof {
                    let k = if c == '.' {
                        TokM::Dot
                    } else if c == ';' {
                        TokM::ArgSep
                    } else {
                        TokM::ArgInit
                    };
                    step_token(s, pre, self.tokens@, tok_m(s, k, i, i + 1), tm);
                }
            } else if cu == 34 {
                // '"'
                let j = find_quote(&self.source, self.pointer + 1);
                if j >= len {
                    proof {
                        assert(scan_from(s, i, false) == Err::<Seq<TokenM>, LexErrM>(
                            LexErrM { kind: LexErrKind::UnterminatedString, at: i },
                        ));
                    }
                    return Err("Unterminated string".to_owned());
                }
                let content = self.source.as_str().substring_char(self.pointer + 1, j).to_owned();
                let mut pos = self.position;
                advance_position(&mut pos, &self.source, self.pointer, j + 1);
                self.pointer = j + 1;
                self.position = pos;
                let tok = Token { token: TToken::String(content), start, end: pos };
                let ghost tm = tok@;
                self.tokens.push(tok);
                proof {
                    step_token(
                        s,
                        pre,
                        self.tokens@,
                        tok_m(s, TokM::Str(s.subrange(i + 1, j as int)), i, j + 1),
                        tm,
                    );
                }
            } else if is_alpha_exec(c) {
                let j = find_stop_ident(&self.source, self.pointer + 1);
                let content = self.source.as_str().substring_char(self.pointer, j).to_owned();
                let mut pos = self.position;
                advance_position(&mut pos, &self.source, self.pointer, j);
                self.pointer = j;
                self.position = pos;
                let tok = Token { token: TToken::Ident(content), start, end: pos };
                let ghost tm = tok@;
                self.tokens.push(tok);
                proof {
                    step_token(
                        s,
                        pre,
                        self.tokens@,
                        tok_m(s, TokM::Ident(s.subrange(i, j as int)), i, j as int),
                        tm,
                    );
                }
            } else if is_digit_exec(c) {
                let j = find_stop_digit(&self.source, self.pointer + 1);
                let value = match parse_digits(&self.source, self.pointer, j) {
                    Some(v) => v,
                    None => {
                        proof {
                            assert(scan_from(s, i, false) == Err::<Seq<TokenM>, LexErrM>(
                                LexErrM { kind: LexErrKind::IntOverflow, at: i },
                            ));
                        }
                        return Err("number too large to fit in target type".to_owned());
                    },
                };
                let mut pos = self.position;
                advance_position(&mut pos, &self.source, self.pointer, j);
                self.pointer = j;
                self.position = pos;
                let tok = Token { token: TToken::Int(value), start, end: pos };
                let ghost tm = tok@;
                self.tokens.push(tok);
                proof {
                    step_token(
                        s,
                        pre,
                        self.tokens@,
                        tok_m(s, TokM::Int(digits_val(s.subrange(i, j as int)) as u32), i, j as int),
                        tm,
                    );
                }
            } else {
                proof {
                    assert(scan_from(s, i, false) == Err::<Seq<TokenM>, LexErrM>(
                        LexErrM { kind: LexErrKind::UnexpectedChar, at: i },
                    ));
                }
                return Err("Unexpected token".to_owned());
            }
        }
        proof {
            assert(scan_from(s, s.len() as int, self.is_text) == Ok::<Seq<TokenM>, LexErrM>(
                Seq::empty(),
            ));
            assert(self.tokens@.map_values(|t: Token| t@) + Seq::<TokenM>::empty()
                =~= self.tokens@.map_values(|t: Token| t@));
        }
        Ok(())
    }
}

/// After pushing a token whose view is the next one the specification
/// tokenizer emits, the prefix invariant of the main loop still holds.
proof fn step_token(s: Seq<char>, prev: Seq<Token>, now: Seq<Token>, t: TokenM, tm: TokenM)
    requires
        now == prev.push(now.last()),
        now.len() == prev.len() + 1,
        now.last()@ == tm,
        tm == t,
    ensures
        now.map_values(|x: Token| x@) == prev.map_values(|x: Token| x@).push(t),
        forall|r: Result<Seq<TokenM>, LexErrM>|
            res_prepend(prev.map_values(|x: Token| x@), #[trigger] res_prepend(seq![t], r))
                == res_prepend(now.map_values(|x: Token| x@), r),
{
    assert(now.map_values(|x: Token| x@) =~= prev.map_values(|x: Token| x@).push(t));
    assert forall|r: Result<Seq<TokenM>, LexErrM>|
        res_prepend(prev.map_values(|x: Token| x@), #[trigger] res_prepend(seq![t], r))
            == res_prepend(now.map_values(|x: Token| x@), r) by {
        match r {
            Ok(ts) => {
                assert(prev.map_values(|x: Token| x@) + (seq![t] + ts) =~= prev.map_values(
                    |x: Token| x@,
                ).push(t) + ts);
            },
            Err(_) => {},
        }
    }
}

// ---------------------------------------------------------------------------
// Executable helpers
// ---------------------------------------------------------------------------

fn is_alpha_exec(c: char) -> (r: bool)
    ensures
        r == is_alpha_char(c),
{
    (c >= 'a' && c <= 'z') || (c >= 'A' && c <= 'Z') || c == '_'
}

fn is_digit_exec(c: char) -> (r: bool)
    ensures
        r == is_digit_char(c),
{
    c >= '0' && c <= '9'
}

fn find_stop_text(s: &String, i: usize) -> (j: usize)
    requires
        i <= s@.len(),
    ensures
        i <= j <= s@.len(),
        j == i + run_len(s@, i as int, text_stop()),
        forall|m: int| i <= m < j ==> !(#[trigger] s@[m] == '{' || s@[m] == '\n'),
{
    let len = s.as_str().unicode_len();
    let mut k = i;
    loop
        invariant
            i <= k <= len,
            len == s@.len(),
            forall|m: int| i <= m < k ==> !(#[trigger] s@[m] == '{' || s@[m] == '\n'),
        ensures
            i <= k <= len,
            len == s@.len(),
            forall|m: int| i <= m < k ==> !(#[trigger] s@[m] == '{' || s@[m] == '\n'),
            k == len || s@[k as int] == '{' || s@[k as int] == '\n',
        decreases len - k,
    {
        if k >= len {
            break;
        }
        let c = s.as_str().get_char(k);
        if c == '{' || c == '\n' {
            break;
        }
        k = k + 1;
    }
    proof {
        assert forall|m: int| i <= m < k implies !text_stop()(s@[m]) by {}
        lemma_run_len_eq(s@, i as int, k as int, text_stop());
    }
    k
}

fn find_stop_ident(s: &String, i: usize) -> (j: usize)
    requires
        i <= s@.len(),
    ensures
        i <= j <= s@.len(),
        j == i + run_len(s@, i as int, ident_stop()),
        forall|m: int| i <= m < j ==> is_alpha_char(#[trigger] s@[m]),
{
    let len = s.as_str().unicode_len();
    let mut k = i;
    loop
        invariant
            i <= k <= len,
            len == s@.len(),
            forall|m: int| i <= m < k ==> is_alpha_char(#[trigger] s@[m]),
        ensures
            i <= k <= len,
            len == s@.len(),
            forall|m: int| i <= m < k ==> is_alpha_char(#[trigger] s@[m]),
            k == len || !is_alpha_char(s@[k as int]),
        decreases len - k,
    {
        if k >= len {
            break;
        }
        let c = s.as_str().get_char(k);
        if !is_alpha_exec(c) {
            break;
        }
        k = k + 1;
    }
    proof {
        assert forall|m: int| i <= m < k implies !ident_stop()(s@[m]) by {}
        lemma_run_len_eq(s@, i as int, k as int, ident_stop());
    }
    k
}

fn find_stop_digit(s: &String, i: usize) -> (j: usize)
    requires
        i <= s@.len(),
    ensures
        i <= j <= s@.len(),
        j == i + run_len(s@, i as int, digit_stop()),
        forall|m: int| i <= m < j ==> is_digit_char(#[trigger] s@[m]),
{
    let len = s.as_str().unicode_len();
    let mut k = i;
    loop
        invariant
            i <= k <= len,
            len == s@.len(),
            forall|m: int| i <= m < k ==> is_digit_char(#[trigger] s@[m]),
        ensures
            i <= k <= len,
            len == s@.len(),
            forall|m: int| i <= m < k ==> is_digit_char(#[trigger] s@[m]),
            k == len || !is_digit_char(s@[k as int]),
        decreases len - k,
    {
        if k >= len {
            break;
        }
        let c = s.as_str().get_char(k);
        if !is_digit_exec(c) {
            break;
        }
        k = k + 1;
    }
    proof {
        assert forall|m: int| i <= m < k implies !digit_stop()(s@[m]) by {}
        lemma_run_len_eq(s@, i as int, k as int, digit_stop());
    }
    k
}

fn find_quote(s: &String, i: usize) -> (j: usize)
    requires
        i <= s@.len(),
    ensures
        i <= j <= s@.len(),
        j == i + run_len(s@, i as int, quote_stop()),
{
    let len = s.as_str().unicode_len();
    let mut k = i;
    loop
        invariant
            i <= k <= len,
            len == s@.len(),
            forall|m: int| i <= m < k ==> #[trigger] s@[m] != '"',
        ensures
            i <= k <= len,
            len == s@.len(),
            forall|m: int| i <= m < k ==> #[trigger] s@[m] != '"',
            k == len || s@[k as int] == '"',
        decreases len - k,
    {
        if k >= len {
            break;
        }
        let c = s.as_str().get_char(k);
        if c == '"' {
            break;
        }
        k = k + 1;
    }
    proof {
        assert forall|m: int| i <= m < k implies !quote_stop()(s@[m]) by {}
        lemma_run_len_eq(s@, i as int, k as int, quote_stop());
    }
    k
}

/// Walk `pos` forward over the characters `from..to` of `s`.
#[verifier::loop_isolation(false)]
fn advance_position(pos: &mut PPosition, s: &String, from: usize, to: usize)
    requires
        from <= to <= s@.len(),
        old(pos)@ == pos_at(s@, from as int),
    ensures
        final(pos)@ == pos_at(s@, to as int),
{
    let mut k = from;
    while k < to
        invariant
            from <= k <= to,
            pos@ == pos_at(s@, k as int),
        decreases to - k,
    {
        proof {
            lemma_pos_at_bounds(s@, k as int);
        }
        let c = s.as_str().get_char(k);
        if c == '\n' {
            pos.advance_column();
        } else {
            pos.advance_line();
        }
        k = k + 1;
    }
}

/// If some digit prefix already exceeds `u32::MAX`, so does the whole run.
proof fn lemma_digits_val_grows(ds: Seq<char>, k: int)
    requires
        0 <= k <= ds.len(),
        forall|m: int| 0 <= m < ds.len() ==> is_digit_char(#[trigger] ds[m]),
        digits_val(ds.subrange(0, k)) > u32::MAX,
    ensures
        digits_val(ds) > u32::MAX,
    decreases ds.len() - k,
{
    if k == ds.len() {
        assert(ds.subrange(0, k) =~= ds);
    } else {
        let pre = ds.subrange(0, k + 1);
        assert(pre.drop_last() =~= ds.subrange(0, k));
        assert(is_digit_char(pre.last()));
        assert(digits_val(pre) == digits_val(ds.subrange(0, k)) * 10 + (pre.last() as int
            - '0' as int));
        assert(digits_val(ds.subrange(0, k)) * 10 > u32::MAX) by (nonlinear_arith)
            requires
                digits_val(ds.subrange(0, k)) > u32::MAX,
        ;
        lemma_digits_val_grows(ds, k + 1);
    }
}

/// Read the digit run `from..to` of `s` as an unsigned 32-bit integer;
/// `None` means the run's value does not fit.
#[verifier::loop_isolation(false)]
fn parse_digits(s: &String, from: usize, to: usize) -> (r: Option<u32>)
    requires
        from < to <= s@.len(),
        forall|m: int| from <= m < to ==> is_digit_char(#[trigger] s@[m]),
    ensures
        match r {
            Some(v) => v == digits_val(s@.subrange(from as int, to as int)),
            None => digits_val(s@.subrange(from as int, to as int)) > u32::MAX,
        },
{
    let ghost ds = s@.subrange(from as int, to as int);
    let mut val: u32 = 0;
    let mut k = from;
    while k < to
        invariant
            from <= k <= to,
            val == digits_val(ds.subrange(0, k - from)),
        decreases to - k,
    {
        let c = s.as_str().get_char(k);
        proof {
            assert(s@[k as int] == c);
            assert(is_digit_char(c));
        }
        let d = (c as u32) - 48;
        proof {
            assert(ds.subrange(0, k + 1 - from).drop_last() =~= ds.subrange(0, k - from));
            assert(ds.subrange(0, k + 1 - from).last() == c);
            assert(digits_val(ds.subrange(0, k + 1 - from)) == val * 10 + d);
        }
        if val > (u32::MAX - d) / 10 {
            proof {
                assert(val * 10 + d > u32::MAX) by (nonlinear_arith)
                    requires
                        val > (u32::MAX - d) / 10,
                        d < 10,
                ;
                assert forall|m: int| 0 <= m < ds.len() implies is_digit_char(
                    #[trigger] ds[m],
                ) by {}
                lemma_digits_val_grows(ds, k + 1 - from);
            }
            return None;
        }
        proof {
            assert(val * 10 + d <= u32::MAX) by (nonlinear_arith)
                requires
                    val <= (u32::MAX - d) / 10,
                    d < 10,
            ;
        }
        val = val * 10 + d;
        k = k + 1;
    }
    proof {
        assert(ds.subrange(0, to - from) =~= ds);
    }
    Some(val)
}

// ---------------------------------------------------------------------------
// Law: tag-free text is one token
// ---------------------------------------------------------------------------

/// A run with no stop character anywhere reaches the end of the text.
proof fn lemma_run_len_full(s: Seq<char>, i: int, p: spec_fn(char) -> bool)
    requires
        0 <= i <= s.len(),
        forall|m: int| i <= m < s.len() ==> !p(#[trigger] s[m]),
    ensures
        run_len(s, i, p) == s.len() - i,
    decreases s.len() - i,
{
    if i < s.len() {
        lemma_run_len_full(s, i + 1, p);
    }
}

/// Source text with no brace and no line break, not opening on whitespace,
/// tokenizes to exactly one Text token that spans the whole input.
pub proof fn lemma_text_only_single_token(s: Seq<char>)
    requires
        s.len() > 0,
        forall|m: int|
            0 <= m < s.len() ==> !(#[trigger] s[m] == '{' || s[m] == '}' || s[m] == '\n'),
        !is_ws_char(s[0]),
    ensures
        scan_spec(s) == Ok::<Seq<TokenM>, LexErrM>(
            seq![
                TokenM {
                    tok: TokM::Text(s),
                    start: PosM { row: 0, col: 0 },
                    end: pos_at(s, s.len() as int),
                },
            ],
        ),
{
    assert forall|m: int| 1 <= m < s.len() implies !text_stop()(s[m]) by {}
    lemma_run_len_full(s, 1, text_stop());
    let j = s.len() as int;
    assert(s.subrange(0, j) =~= s);
    assert(scan_from(s, j, true) == Ok::<Seq<TokenM>, LexErrM>(Seq::<TokenM>::empty()));
    assert(seq![tok_m(s, TokM::Text(s), 0, j)] + Seq::<TokenM>::empty() =~= seq![
        tok_m(s, TokM::Text(s), 0, j),
    ]);
}

/// Literal text followed by a well-formed `{name.sub}` tag and optional
/// trailing text tokenizes to exactly the tokens one would read off: the
/// text, the braces, the two identifiers, the dot, and the trailing text's
/// single token if there is any.
#[verifier::rlimit(80)]
pub proof fn lemma_scan_simple_tag(t: Seq<char>, name: Seq<char>, sub: Seq<char>, t2: Seq<char>)
    requires
        t.len() > 0,
        name.len() > 0,
        sub.len() > 0,
        forall|m: int|
            0 <= m < t.len() ==> !(#[trigger] t[m] == '{' || t[m] == '}' || t[m] == '\n'),
        !is_ws_char(t[0]),
        forall|m: int| 0 <= m < name.len() ==> is_alpha_char(#[trigger] name[m]),
        forall|m: int| 0 <= m < sub.len() ==> is_alpha_char(#[trigger] sub[m]),
        forall|m: int|
            0 <= m < t2.len() ==> !(#[trigger] t2[m] == '{' || t2[m] == '}' || t2[m] == '\n'),
        t2.len() > 0 ==> !is_ws_char(t2[0]),
    ensures
        ({
            let s = t + seq!['{'] + name + seq!['.'] + sub + seq!['}'] + t2;
            let a = t.len() as int;
            let b = a + 1;
            let c = b + name.len();
            let d = c + 1;
            let e = d + sub.len();
            scan_spec(s) == Ok::<Seq<TokenM>, LexErrM>(
                seq![
                    tok_m(s, TokM::Text(t), 0, a),
                    tok_m(s, TokM::OpenTag, a, b),
                    tok_m(s, TokM::Ident(name), b, c),
                    tok_m(s, TokM::Dot, c, d),
                    tok_m(s, TokM::Ident(sub), d, e),
                    tok_m(s, TokM::CloseTag, e, e + 1),
                ] + (if t2.len() == 0 {
                    Seq::<TokenM>::empty()
                } else {
                    seq![tok_m(s, TokM::Text(t2), e + 1, s.len() as int)]
                }),
            )
        }),
{
    let s = t + seq!['{'] + name + seq!['.'] + sub + seq!['}'] + t2;
    let a = t.len() as int;
    let b = a + 1;
    let c = b + name.len();
    let d = c + 1;
    let e = d + sub.len();
    let ll = e + 1 + t2.len() as int;
    assert(s.len() == ll);
    assert forall|m: int| 0 <= m < a implies s[m] == t[m] by {}
    assert(s[a] == '{');
    assert forall|m: int| b <= m < c implies s[m] == name[m - b] by {}
    assert(s[c] == '.');
    assert forall|m: int| d <= m < e implies s[m] == sub[m - d] by {}
    assert(s[e] == '}');
    assert forall|m: int| e + 1 <= m < ll implies s[m] == t2[m - (e + 1)] by {}
    // past the end: no further tokens
    let r_end = scan_from(s, ll, true);
    assert(r_end == Ok::<Seq<TokenM>, LexErrM>(Seq::empty()));
    // the trailing text, if any
    let tail: Seq<TokenM> = if t2.len() == 0 {
        Seq::<TokenM>::empty()
    } else {
        seq![tok_m(s, TokM::Text(t2), e + 1, ll)]
    };
    if t2.len() > 0 {
        assert forall|m: int| e + 2 <= m < ll implies !text_stop()(s[m]) by {
            assert(s[m] == t2[m - (e + 1)]);
        }
        lemma_run_len_eq(s, e + 2, ll, text_stop());
        assert(s.subrange(e + 1, ll) =~= t2);
        assert(seq![tok_m(s, TokM::Text(t2), e + 1, ll)] + Seq::<TokenM>::empty() =~= tail);
    }
    assert(scan_from(s, e + 1, true) == Ok::<Seq<TokenM>, LexErrM>(tail));
    // `}`
    let tk6 = tok_m(s, TokM::CloseTag, e, e + 1);
    assert(scan_from(s, e, false) == Ok::<Seq<TokenM>, LexErrM>(seq![tk6] + tail));
    // `sub`
    assert forall|m: int| d + 1 <= m < e implies !ident_stop()(s[m]) by {
        assert(is_alpha_char(sub[m - d]));
    }
    lemma_run_len_eq(s, d + 1, e, ident_stop());
    assert(s.subrange(d, e) =~= sub);
    assert(is_alpha_char(s[d]));
    let tk5 = tok_m(s, TokM::Ident(sub), d, e);
    assert(seq![tk5] + (seq![tk6] + tail) =~= seq![tk5, tk6] + tail);
    assert(scan_from(s, d, false) == Ok::<Seq<TokenM>, LexErrM>(seq![tk5, tk6] + tail));
    // `.`
    let tk4 = tok_m(s, TokM::Dot, c, d);
    assert(seq![tk4] + (seq![tk5, tk6] + tail) =~= seq![tk4, tk5, tk6] + tail);
    assert(scan_from(s, c, false) == Ok::<Seq<TokenM>, LexErrM>(seq![tk4, tk5, tk6] + tail));
    // `name`
    assert forall|m: int| b + 1 <= m < c implies !ident_stop()(s[m]) by {
        assert(is_alpha_char(name[m - b]));
    }
    lemma_run_len_eq(s, b + 1, c, ident_stop());
    assert(s.subrange(b, c) =~= name);
    assert(is_alpha_char(s[b]));
    let tk3 = tok_m(s, TokM::Ident(name), b, c);
    assert(seq![tk3] + (seq![tk4, tk5, tk6] + tail) =~= seq![tk3, tk4, tk5, tk6] + tail);
    assert(scan_from(s, b, false) == Ok::<Seq<TokenM>, LexErrM>(seq![tk3, tk4, tk5, tk6] + tail));
    // `{`
    let tk2 = tok_m(s, TokM::OpenTag, a, b);
    assert(seq![tk2] + (seq![tk3, tk4, tk5, tk6] + tail) =~= seq![tk2, tk3, tk4, tk5, tk6] + tail);
    assert(scan_from(s, a, true) == Ok::<Seq<TokenM>, LexErrM>(
        seq![tk2, tk3, tk4, tk5, tk6] + tail,
    ));
    // the text run
    assert forall|m: int| 1 <= m < a implies !text_stop()(s[m]) by {
        assert(s[m] == t[m]);
    }
    assert(text_stop()(s[a]));
    lemma_run_len_eq(s, 1, a, text_stop());
    assert(s.subrange(0, a) =~= t);
    let tk1 = tok_m(s, TokM::Text(t), 0, a);
    assert(seq![tk1] + (seq![tk2, tk3, tk4, tk5, tk6] + tail) =~= seq![tk1, tk2, tk3, tk4, tk5,
        tk6] + tail);
    assert(scan_from(s, 0, true) == Ok::<Seq<TokenM>, LexErrM>(
        seq![tk1, tk2, tk3, tk4, tk5, tk6] + tail,
    ));
}

// ---------------------------------------------------------------------------
// Position order
// ---------------------------------------------------------------------------

/// Lexicographic order on positions: an earlier row, or the same row and a
/// column at most as far right.
pub open spec fn pos_le(p: PosM, q: PosM) -> bool {
    p.row < q.row || (p.row == q.row && p.col <= q.col)
}

/// Walking forward through the text never moves the position backward.
pub proof fn lemma_pos_at_mono(s: Seq<char>, i: int, j: int)
    requires
        i <= j,
    ensures
        pos_le(pos_at(s, i), pos_at(s, j)),
    decreases j - i,
{
    if i < j {
        lemma_pos_at_mono(s, i, j - 1);
    }
}

/// The tokens of a successful scan carry non-decreasing start positions, all
/// at or after the position where the scan began, with non-negative
/// coordinates.
pub proof fn lemma_scan_from_starts_ordered(s: Seq<char>, i: int, mode: bool)
    requires
        0 <= i,
        scan_from(s, i, mode) is Ok,
    ensures
        ({
            let ts = scan_from(s, i, mode)->Ok_0;
            &&& forall|k: int|
                0 <= k < ts.len() ==> pos_le(pos_at(s, i), (#[trigger] ts[k]).start)
            &&& forall|k: int|
                0 <= k < ts.len() ==> 0 <= (#[trigger] ts[k]).start.row && 0
                    <= ts[k].start.col
            &&& forall|k1: int, k2: int|
                0 <= k1 <= k2 < ts.len() ==> pos_le(
                    (#[trigger] ts[k1]).start,
                    (#[trigger] ts[k2]).start,
                )
        }),
    decreases rem(s.len() as int, i),
{
    let ts = scan_from(s, i, mode)->Ok_0;
    if i >= s.len() {
    } else {
        let c = s[i];
        let (j, m2): (int, bool) = if is_ws_char(c) {
            (i + 1, mode)
        } else if c == '{' {
            (i + 1, false)
        } else if c == '}' {
            (i + 1, true)
        } else if mode {
            (i + 1 + run_len(s, i + 1, text_stop()), true)
        } else if c == '.' || c == ';' || c == '|' {
            (i + 1, false)
        } else if c == '"' {
            (i + 2 + run_len(s, i + 1, quote_stop()), false)
        } else if is_alpha_char(c) {
            (i + 1 + run_len(s, i + 1, ident_stop()), false)
        } else {
            (i + 1 + run_len(s, i + 1, digit_stop()), false)
        };
        assert(i < j);
        assert(scan_from(s, j, m2) is Ok);
        let rest = scan_from(s, j, m2)->Ok_0;
        assert(ts.len() >= 1);
        assert(ts[0].start == pos_at(s, i));
        assert forall|k: int| 1 <= k < ts.len() implies ts[k] == rest[k - 1] by {}
        lemma_scan_from_starts_ordered(s, j, m2);
        lemma_pos_at_mono(s, i, j);
        lemma_pos_at_bounds(s, i);
        assert forall|k: int| 0 <= k < ts.len() implies pos_le(
            pos_at(s, i),
            (#[trigger] ts[k]).start,
        ) by {
            if k > 0 {
                assert(ts[k] == rest[k - 1]);
                assert(pos_le(pos_at(s, j), rest[k - 1].start));
            }
        }
        assert forall|k: int| 0 <= k < ts.len() implies 0 <= (#[trigger] ts[k]).start.row && 0
            <= ts[k].start.col by {
            if k > 0 {
                assert(ts[k] == rest[k - 1]);
            }
        }
        assert forall|k1: int, k2: int| 0 <= k1 <= k2 < ts.len() implies pos_le(
            (#[trigger] ts[k1]).start,
            (#[trigger] ts[k2]).start,
        ) by {
            if k1 == 0 {
                assert(pos_le(pos_at(s, i), ts[k2].start));
            } else {
                assert(ts[k1] == rest[k1 - 1]);
                assert(ts[k2] == rest[k2 - 1]);
                assert(pos_le(rest[k1 - 1].start, rest[k2 - 1].start));
            }
        }
    }
}

} // verus!
