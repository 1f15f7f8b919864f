use crate::lex::{Lexer, PPosition, PosM, TToken, Token, TokM, TokenM};
use vstd::prelude::*;

verus! {

// ---------------------------------------------------------------------------
// The syntax tree
// ---------------------------------------------------------------------------

/// The root of a parse: the statements of the whole source with its span.
#[derive(Debug)]
pub struct Source {
    pub _type: String,
    pub start: PPosition,
    pub end: PPosition,
    pub body: Vec<Stat>,
}

/// A top-level statement: literal text, or a `{...}` tag.
#[derive(Debug)]
pub enum Stat {
    Text { _type: String, value: String, start: PPosition, end: PPosition },
    Tag { _type: String, start: PPosition, end: PPosition, value: Expression },
}

/// What stands between `{` and `}`: an optional property reference and an
/// optional argument list.
#[derive(Debug)]
pub struct Expression {
    pub _type: String,
    pub property: Option<PValue>,
    pub arguments: Option<Vec<Arg>>,
}

/// A resolvable value: a dotted property chain or a literal.
#[derive(Debug)]
pub enum PValue {
    Property(Property),
    String { _type: String, start: PPosition, end: PPosition, value: String },
    Int { _type: String, start: PPosition, end: PPosition, value: u32 },
}

/// A dotted chain of names, such as `guild.name`; the segment list is
/// non-empty whenever construction succeeds.
#[derive(Debug)]
pub struct Property {
    pub _type: String,
    pub value: Vec<String>,
    pub start: PPosition,
    pub end: PPosition,
}

/// One argument of a call.
#[derive(Debug)]
pub enum Arg {
    Single(Argument),
}

#[derive(Debug)]
pub struct Argument {
    pub _type: String,
    pub value: PValue,
    pub start: PPosition,
    pub end: PPosition,
}

/// A recoverable finding: a message with the exact source span it underlines.
#[derive(Debug)]
pub struct ParserError {
    pub message: String,
    pub start: PPosition,
    pub end: PPosition,
}

/// What a parse hands back: the best-effort tree and the findings, in source
/// order. A parse never fails.
#[derive(Debug)]
pub struct ParserResults {
    pub errors: Vec<ParserError>,
    pub ast: Source,
}

// ---------------------------------------------------------------------------
// Models
// ---------------------------------------------------------------------------

pub ghost struct PropM {
    pub segs: Seq<Seq<char>>,
    pub start: PosM,
    pub end: PosM,
}

pub ghost enum PValM {
    Property(PropM),
    Str { start: PosM, end: PosM, val: Seq<char> },
    Int { start: PosM, end: PosM, val: u32 },
}

pub ghost struct ArgM {
    pub val: PValM,
    pub start: PosM,
    pub end: PosM,
}

pub ghost struct ExprM {
    pub property: Option<PValM>,
    pub arguments: Option<Seq<ArgM>>,
}

pub ghost enum StatM {
    Text { val: Seq<char>, start: PosM, end: PosM },
    Tag { start: PosM, end: PosM, expr: ExprM },
}

pub ghost struct PErrM {
    pub msg: Seq<char>,
    pub start: PosM,
    pub end: PosM,
}

impl View for Property {
    type V = PropM;

    open spec fn view(&self) -> PropM {
        PropM {
            segs: self.value@.map_values(|s: String| s@),
            start: self.start@,
            end: self.end@,
        }
    }
}

impl View for PValue {
    type V = PValM;

    open spec fn view(&self) -> PValM {
        match self {
            PValue::Property(p) => PValM::Property(p@),
            PValue::String { _type, start, end, value } => PValM::Str {
                start: start@,
                end: end@,
                val: value@,
            },
            PValue::Int { _type, start, end, value } => PValM::Int {
                start: start@,
                end: end@,
                val: *value,
            },
        }
    }
}

impl View for Arg {
    type V = ArgM;

    open spec fn view(&self) -> ArgM {
        match self {
            Arg::Single(a) => ArgM { val: a.value@, start: a.start@, end: a.end@ },
        }
    }
}

impl View for Expression {
    type V = ExprM;

    open spec fn view(&self) -> ExprM {
        ExprM {
            property: match &self.property {
                Some(p) => Some(p@),
                None => None,
            },
            arguments: match &self.arguments {
                Some(args) => Some(args@.map_values(|a: Arg| a@)),
                None => None,
            },
        }
    }
}

impl View for Stat {
    type V = StatM;

    open spec fn view(&self) -> StatM {
        match self {
            Stat::Text { _type, value, start, end } => StatM::Text {
                val: value@,
                start: start@,
                end: end@,
            },
            Stat::Tag { _type, start, end, value } => StatM::Tag {
                start: start@,
                end: end@,
                expr: value@,
            },
        }
    }
}

impl View for ParserError {
    type V = PErrM;

    open spec fn view(&self) -> PErrM {
        PErrM { msg: self.message@, start: self.start@, end: self.end@ }
    }
}

// ---------------------------------------------------------------------------
// The specification parser
// ---------------------------------------------------------------------------

pub open spec fn toks_rem(len: int, i: int) -> nat {
    if i <= len {
        (len - i) as nat
    } else {
        0
    }
}

/// The number of whitespace tokens from `i` on: the parser skips them
/// whenever it peeks.
pub open spec fn ws_run(toks: Seq<TokenM>, i: int) -> nat
    decreases toks_rem(toks.len() as int, i),
{
    if i < 0 || i >= toks.len() || !(toks[i].tok is WS) {
        0
    } else {
        (1 + ws_run(toks, i + 1)) as nat
    }
}

/// The last token of the list; meaningful only for non-empty lists, which is
/// the only way the parser reaches it.
pub open spec fn last_tok(toks: Seq<TokenM>) -> TokenM {
    toks[toks.len() - 1]
}

pub open spec fn perr(msg: Seq<char>, start: PosM, end: PosM) -> PErrM {
    PErrM { msg, start, end }
}

/// Tokens that end the recovery skip inside a malformed property.
pub open spec fn arg_stop() -> spec_fn(TokM) -> bool {
    |t: TokM| t is ArgInit || t is CloseTag
}

/// Tokens that end the recovery skip inside a malformed argument property.
pub open spec fn sep_stop() -> spec_fn(TokM) -> bool {
    |t: TokM| t is ArgSep || t is CloseTag
}

/// Skip forward, whitespace included, to the first token satisfying `p`
/// without consuming it; the result is that token (if any) and the index the
/// cursor rests at afterwards.
pub open spec fn adv_until(toks: Seq<TokenM>, i: int, p: spec_fn(TokM) -> bool) -> (
    Option<TokenM>,
    int,
)
    decreases toks_rem(toks.len() as int, i),
{
    if i < 0 || i >= toks.len() {
        (None, i)
    } else {
        let n = i + ws_run(toks, i);
        if n >= toks.len() {
            (None, n)
        } else if p(toks[n].tok) {
            (Some(toks[n]), n)
        } else {
            adv_until(toks, n + 1, p)
        }
    }
}

/// The dotted-chain loop of a tag's property: collects further segments after
/// the first `name.`, reporting doubled dots, missing dots, stray tokens and
/// strings, until `|`, `}` or the end of input. `last` is the end position of
/// the last segment accepted so far; the chain's recorded span closes there.
pub open spec fn parse_prop_loop(
    toks: Seq<TokenM>,
    i: int,
    segs: Seq<Seq<char>>,
    lwd: bool,
    last: PosM,
) -> (Seq<Seq<char>>, Seq<PErrM>, int, PosM)
    decreases toks_rem(toks.len() as int, i),
{
    if i < 0 || i >= toks.len() {
        (segs, Seq::empty(), i, last)
    } else {
        let n = i + ws_run(toks, i);
        if n >= toks.len() {
            (segs, Seq::empty(), n, last)
        } else {
            let t = toks[n];
            match t.tok {
                TokM::Dot => {
                    let here = if lwd {
                        seq![perr("Unexpected '.'"@, t.start, t.end)]
                    } else {
                        Seq::empty()
                    };
                    let rest = parse_prop_loop(toks, n + 1, segs, true, last);
                    (rest.0, here + rest.1, rest.2, rest.3)
                },
                TokM::ArgSep | TokM::Int(_) => {
                    let here = seq![perr("Unexpected Token"@, t.start, t.end)];
                    let rest = parse_prop_loop(toks, n + 1, segs, lwd, last);
                    (rest.0, here + rest.1, rest.2, rest.3)
                },
                TokM::Ident(id) => {
                    if !lwd {
                        let skip = adv_until(toks, n + 1, arg_stop());
                        let end = match skip.0 {
                            Some(et) => et.end,
                            None => t.end,
                        };
                        let here = seq![perr("Unexpected Token"@, t.start, end)];
                        let rest = parse_prop_loop(
                            toks,
                            if skip.1 < n + 1 {
                                n + 1
                            } else {
                                skip.1
                            },
                            segs,
                            lwd,
                            last,
                        );
                        (rest.0, here + rest.1, rest.2, rest.3)
                    } else {
                        let rest = parse_prop_loop(toks, n + 1, segs.push(id), false, t.end);
                        (rest.0, rest.1, rest.2, rest.3)
                    }
                },
                TokM::Str(_) => {
                    let here = seq![perr("Unexpected String"@, t.start, t.end)];
                    let rest = parse_prop_loop(toks, n + 1, segs, lwd, last);
                    (rest.0, here + rest.1, rest.2, rest.3)
                },
                TokM::Text(_) | TokM::OpenTag => {
                    let here = seq![perr("Unexpected Token"@, t.start, t.end)];
                    let rest = parse_prop_loop(toks, n + 1, segs, lwd, last);
                    (rest.0, here + rest.1, rest.2, rest.3)
                },
                TokM::WS => {
                    let rest = parse_prop_loop(toks, n + 1, segs, lwd, last);
                    (rest.0, rest.1, rest.2, rest.3)
                },
                TokM::ArgInit | TokM::CloseTag => (segs, Seq::empty(), n, last),
            }
        }
    }
}

/// A tag's property: an identifier followed by an optional dotted chain,
/// whose recorded span runs from the first segment to the end of the last.
/// Anything else is reported and recovered from; the result is the collected
/// chain (if an initial identifier was there), the findings, and the index
/// the cursor rests at.
pub open spec fn parse_property(toks: Seq<TokenM>, i: int) -> (Option<PropM>, Seq<PErrM>, int) {
    let n = i + ws_run(toks, i);
    if n >= toks.len() {
        (
            None,
            seq![perr("Unexpected EOF expected Property"@, last_tok(toks).end, last_tok(toks).end)],
            n,
        )
    } else {
        let init = toks[n];
        match init.tok {
            TokM::Ident(id) => {
                let segs0 = seq![id];
                let n2 = (n + 1) + ws_run(toks, n + 1);
                if n2 >= toks.len() {
                    // unclosed tag: keep the collected segment; the missing
                    // `}` is reported by `parse_expression`
                    (
                        Some(PropM { segs: segs0, start: init.start, end: init.end }),
                        Seq::empty(),
                        n2,
                    )
                } else {
                    let t2 = toks[n2];
                    match t2.tok {
                        TokM::Dot => {
                            let rest = parse_prop_loop(toks, n2 + 1, segs0, true, init.end);
                            let trailing = if rest.0.len() < 2 {
                                seq![perr("Expected Idnt"@, t2.start, t2.end)]
                            } else {
                                Seq::empty()
                            };
                            (
                                Some(PropM { segs: rest.0, start: init.start, end: rest.3 }),
                                rest.1 + trailing,
                                rest.2,
                            )
                        },
                        TokM::ArgInit | TokM::CloseTag | TokM::Text(_) | TokM::WS => (
                            Some(PropM { segs: segs0, start: init.start, end: init.end }),
                            Seq::empty(),
                            n2,
                        ),
                        TokM::ArgSep | TokM::Str(_) | TokM::Ident(_) | TokM::Int(_)
                        | TokM::OpenTag => {
                            let skip = adv_until(toks, n2 + 1, arg_stop());
                            let end = match skip.0 {
                                Some(et) => et.end,
                                None => t2.end,
                            };
                            (
                                Some(PropM { segs: segs0, start: init.start, end: init.end }),
                                seq![perr("Unexpected Token"@, t2.start, end)],
                                skip.1,
                            )
                        },
                    }
                }
            },
            _ => (
                None,
                seq![perr("Expected Identifyer"@, init.start, init.start)],
                n + 1,
            ),
        }
    }
}

/// The dotted chain of a property passed as an argument; like the tag
/// property's chain but ending at `;` or `}`. `last` is the end position of
/// the last segment accepted so far.
pub open spec fn parse_arg_ident_loop(
    toks: Seq<TokenM>,
    i: int,
    segs: Seq<Seq<char>>,
    lwd: bool,
    last: PosM,
) -> (Seq<Seq<char>>, Seq<PErrM>, int, PosM)
    decreases toks_rem(toks.len() as int, i),
{
    if i < 0 || i >= toks.len() {
        (segs, Seq::empty(), i, last)
    } else {
        let n = i + ws_run(toks, i);
        if n >= toks.len() {
            (segs, Seq::empty(), n, last)
        } else {
            let t = toks[n];
            match t.tok {
                TokM::Dot => {
                    let here = if lwd {
                        seq![perr("Unexpected '.'"@, t.start, t.end)]
                    } else {
                        Seq::empty()
                    };
                    let rest = parse_arg_ident_loop(toks, n + 1, segs, true, last);
                    (rest.0, here + rest.1, rest.2, rest.3)
                },
                TokM::Ident(id) => {
                    if !lwd {
                        let skip = adv_until(toks, n + 1, sep_stop());
                        let end = match skip.0 {
                            Some(et) => et.end,
                            None => t.end,
                        };
                        let here = seq![perr("Unexpected Token"@, t.start, end)];
                        let rest = parse_arg_ident_loop(
                            toks,
                            if skip.1 < n + 1 {
                                n + 1
                            } else {
                                skip.1
                            },
                            segs,
                            lwd,
                            last,
                        );
                        (rest.0, here + rest.1, rest.2, rest.3)
                    } else {
                        let rest = parse_arg_ident_loop(toks, n + 1, segs.push(id), false, t.end);
                        (rest.0, rest.1, rest.2, rest.3)
                    }
                },
                TokM::Str(_) | TokM::ArgInit | TokM::Int(_) | TokM::Text(_) | TokM::OpenTag => {
                    let here = seq![perr("Unexpected Token"@, t.start, t.end)];
                    let rest = parse_arg_ident_loop(toks, n + 1, segs, lwd, last);
                    (rest.0, here + rest.1, rest.2, rest.3)
                },
                TokM::WS => {
                    let rest = parse_arg_ident_loop(toks, n + 1, segs, lwd, last);
                    (rest.0, rest.1, rest.2, rest.3)
                },
                TokM::CloseTag | TokM::ArgSep => (segs, Seq::empty(), n, last),
            }
        }
    }
}

/// The argument list after `|`: literals and property chains separated by
/// `;`, with a finding for each missing separator and each stray token.
pub open spec fn parse_args_loop(
    toks: Seq<TokenM>,
    i: int,
    args: Seq<ArgM>,
    expect_sep: bool,
) -> (Option<Seq<ArgM>>, Seq<PErrM>, int)
    decreases toks_rem(toks.len() as int, i),
{
    if i < 0 || i >= toks.len() {
        (if args.len() > 0 {
            Some(args)
        } else {
            None
        }, Seq::empty(), i)
    } else {
        let n = i + ws_run(toks, i);
        if n >= toks.len() {
            (
                None,
                seq![perr("Unexpected EOF expected Arg"@, last_tok(toks).start, last_tok(toks).end)],
                n,
            )
        } else {
            let t = toks[n];
            let sep_err: Seq<PErrM> = if expect_sep {
                seq![perr("Expected ';'"@, t.start, t.start)]
            } else {
                Seq::empty()
            };
            match t.tok {
                TokM::Str(text) => {
                    let arg = ArgM {
                        val: PValM::Str { start: t.start, end: t.end, val: text },
                        start: t.start,
                        end: t.end,
                    };
                    let rest = parse_args_loop(toks, n + 1, args.push(arg), true);
                    (rest.0, sep_err + rest.1, rest.2)
                },
                TokM::Int(v) => {
                    let arg = ArgM {
                        val: PValM::Int { start: t.start, end: t.end, val: v },
                        start: t.start,
                        end: t.end,
                    };
                    let rest = parse_args_loop(toks, n + 1, args.push(arg), true);
                    (rest.0, sep_err + rest.1, rest.2)
                },
                TokM::Ident(id) => {
                    let sub = parse_arg_ident_loop(toks, n + 1, seq![id], false, t.end);
                    let prop = PropM { segs: sub.0, start: t.start, end: sub.3 };
                    let arg = ArgM { val: PValM::Property(prop), start: t.start, end: sub.3 };
                    let rest = parse_args_loop(
                        toks,
                        if sub.2 < n + 1 {
                            n + 1
                        } else {
                            sub.2
                        },
                        args.push(arg),
                        true,
                    );
                    (rest.0, sep_err + sub.1 + rest.1, rest.2)
                },
                TokM::ArgSep => {
                    let rest = parse_args_loop(toks, n + 1, args, false);
                    (rest.0, rest.1, rest.2)
                },
                TokM::ArgInit | TokM::Dot => {
                    let here = seq![perr("Unexpected Token"@, t.start, t.end)];
                    let rest = parse_args_loop(toks, n + 1, args, expect_sep);
                    (rest.0, here + rest.1, rest.2)
                },
                TokM::Text(_) | TokM::OpenTag => {
                    let here = seq![perr("Unexpected Token"@, t.start, t.end)];
                    let rest = parse_args_loop(toks, n + 1, args, expect_sep);
                    (rest.0, here + rest.1, rest.2)
                },
                TokM::WS => {
                    let rest = parse_args_loop(toks, n + 1, args, expect_sep);
                    (rest.0, rest.1, rest.2)
                },
                TokM::CloseTag => (
                    if args.len() > 0 {
                        Some(args)
                    } else {
                        None
                    },
                    Seq::empty(),
                    n,
                ),
            }
        }
    }
}

/// A tag's argument list: present only after an `|`.
pub open spec fn parse_arguments(toks: Seq<TokenM>, i: int) -> (
    Option<Seq<ArgM>>,
    Seq<PErrM>,
    int,
) {
    let n = i + ws_run(toks, i);
    if n >= toks.len() {
        (
            None,
            seq![perr("Unexpected EOF"@, last_tok(toks).start, last_tok(toks).end)],
            n,
        )
    } else if toks[n].tok is ArgInit {
        parse_args_loop(toks, n + 1, Seq::empty(), false)
    } else {
        (None, Seq::empty(), n)
    }
}

/// Everything between `{` and the closing `}`: the property, the arguments,
/// and the close-tag check, whose findings come in that order.
pub open spec fn parse_expression(toks: Seq<TokenM>, i: int) -> (ExprM, Seq<PErrM>, int, PosM) {
    let p = parse_property(toks, i);
    let a = parse_arguments(toks, p.2);
    let expr = ExprM {
        property: match p.0 {
            Some(pm) => Some(PValM::Property(pm)),
            None => None,
        },
        arguments: a.0,
    };
    let n = a.2 + ws_run(toks, a.2);
    if n >= toks.len() {
        (
            expr,
            p.1 + a.1 + seq![
                perr("Unexpected EOF expected '}'"@, last_tok(toks).end, last_tok(toks).end),
            ],
            n,
            last_tok(toks).end,
        )
    } else if toks[n].tok is CloseTag {
        (expr, p.1 + a.1, n + 1, toks[n].end)
    } else {
        (
            expr,
            p.1 + a.1 + seq![perr("Expected '}'"@, last_tok(toks).end, last_tok(toks).end)],
            n + 1,
            toks[n].end,
        )
    }
}

/// The statement list: text tokens pass through, `{` opens a tag, anything
/// else at the top level is skipped.
pub open spec fn parse_body(toks: Seq<TokenM>, i: int) -> (Seq<StatM>, Seq<PErrM>)
    decreases toks_rem(toks.len() as int, i),
{
    if i < 0 || i >= toks.len() {
        (Seq::empty(), Seq::empty())
    } else {
        let n = i + ws_run(toks, i);
        if n >= toks.len() {
            (Seq::empty(), Seq::empty())
        } else {
            let t = toks[n];
            match t.tok {
                TokM::Text(txt) => {
                    let rest = parse_body(toks, n + 1);
                    (
                        seq![StatM::Text { val: txt, start: t.start, end: t.end }] + rest.0,
                        rest.1,
                    )
                },
                TokM::OpenTag => {
                    let e = parse_expression(toks, n + 1);
                    let j = if e.2 < n + 2 {
                        n + 2
                    } else {
                        e.2
                    };
                    let rest = parse_body(toks, j);
                    (
                        seq![StatM::Tag { start: t.start, end: e.3, expr: e.0 }] + rest.0,
                        e.1 + rest.1,
                    )
                },
                _ => parse_body(toks, n + 1),
            }
        }
    }
}

/// The whole parse: statements and findings of the token list.
pub open spec fn parse_spec(toks: Seq<TokenM>) -> (Seq<StatM>, Seq<PErrM>) {
    parse_body(toks, 0)
}

// ---------------------------------------------------------------------------
// Views of executable sequences
// ---------------------------------------------------------------------------

pub open spec fn toks_of(v: Seq<Token>) -> Seq<TokenM> {
    v.map_values(|t: Token| t@)
}

pub open spec fn errs_of(v: Seq<ParserError>) -> Seq<PErrM> {
    v.map_values(|e: ParserError| e@)
}

pub open spec fn stats_of(v: Seq<Stat>) -> Seq<StatM> {
    v.map_values(|s: Stat| s@)
}

pub open spec fn args_of(v: Seq<Arg>) -> Seq<ArgM> {
    v.map_values(|a: Arg| a@)
}

pub open spec fn segs_of(v: Seq<String>) -> Seq<Seq<char>> {
    v.map_values(|s: String| s@)
}

proof fn lemma_assoc(a: Seq<PErrM>, b: Seq<PErrM>, c: Seq<PErrM>)
    ensures
        (a + b) + c == a + (b + c),
{
    assert((a + b) + c =~= a + (b + c));
}

/// Record one finding.
fn push_err(errors: &mut Vec<ParserError>, msg: &str, start: PPosition, end: PPosition)
    ensures
        errs_of(final(errors)@) == errs_of(old(errors)@) + seq![perr(msg@, start@, end@)],
{
    let e = ParserError { message: msg.to_owned(), start, end };
    let ghost em = e@;
    errors.push(e);
    proof {
        assert(errs_of(errors@) =~= errs_of(old(errors)@) + seq![em]);
    }
}

// ---------------------------------------------------------------------------
// The executable parser
// ---------------------------------------------------------------------------

/// The fault-tolerant parser: a cursor over the token list.
pub struct Parser {
    pub tokens: Vec<Token>,
    pub pointer: usize,
    pub end_position: PPosition,
}

impl Parser {
    /// The models of the tokens this parser walks.
    pub open spec fn toks(&self) -> Seq<TokenM> {
        toks_of(self.tokens@)
    }

    pub fn from_lexer(lex: Lexer) -> (r: Self)
        ensures
            r.tokens == lex.tokens,
            r.pointer == 0,
            r.end_position == lex.position,
    {
        Parser { pointer: 0, tokens: lex.tokens, end_position: lex.position }
    }

    /// Move the cursor past whitespace tokens; the parser never reads them.
    fn visit_ws(&mut self)
        ensures
            final(self).tokens == old(self).tokens,
            final(self).end_position == old(self).end_position,
            final(self).pointer == old(self).pointer + ws_run(
                old(self).toks(),
                old(self).pointer as int,
            ),
            old(self).pointer <= final(self).pointer,
            old(self).pointer <= old(self).tokens@.len() ==> final(self).pointer
                <= old(self).tokens@.len(),
    {
        let len = self.tokens.len();
        loop
            invariant
                self.tokens == old(self).tokens,
                self.end_position == old(self).end_position,
                len == self.tokens@.len(),
                old(self).pointer <= self.pointer,
                old(self).pointer <= len ==> self.pointer <= len,
                ws_run(self.toks(), old(self).pointer as int) == (self.pointer - old(
                    self,
                ).pointer) + ws_run(self.toks(), self.pointer as int),
            ensures
                self.tokens == old(self).tokens,
                self.end_position == old(self).end_position,
                old(self).pointer <= self.pointer,
                old(self).pointer <= len ==> self.pointer <= len,
                ws_run(self.toks(), old(self).pointer as int) == (self.pointer - old(
                    self,
                ).pointer) + ws_run(self.toks(), self.pointer as int),
                ws_run(self.toks(), self.pointer as int) == 0,
            decreases toks_rem(len as int, self.pointer as int),
        {
            if self.pointer >= len {
                break;
            }
            let is_ws = match &self.tokens[self.pointer].token {
                TToken::WS => true,
                _ => false,
            };
            if !is_ws {
                proof {
                    assert(self.toks()[self.pointer as int] == self.tokens@[self.pointer as int]@);
                }
                break;
            }
            proof {
                assert(self.toks()[self.pointer as int] == self.tokens@[self.pointer as int]@);
                assert(self.toks()[self.pointer as int].tok is WS);
            }
            self.pointer = self.pointer + 1;
        }
    }

    /// Skip forward to the next `|`/`}` (or, for arguments, `;`/`}`) without
    /// consuming it; hands back the end position of the boundary token.
    fn advance_until(&mut self, to_args: bool) -> (r: Option<PPosition>)
        ensures
            ({
                let p = if to_args {
                    arg_stop()
                } else {
                    sep_stop()
                };
                let res = adv_until(old(self).toks(), old(self).pointer as int, p);
                &&& final(self).tokens == old(self).tokens
                &&& final(self).end_position == old(self).end_position
                &&& final(self).pointer == res.1
                &&& final(self).pointer >= old(self).pointer
                &&& match (r, res.0) {
                    (Some(pp), Some(t)) => pp@ == t.end,
                    (None, None) => true,
                    _ => false,
                }
            }),
    {
        let ghost p = if to_args {
            arg_stop()
        } else {
            sep_stop()
        };
        let len = self.tokens.len();
        let ghost toks = self.toks();
        let ghost p0 = self.pointer as int;
        loop
            invariant
                self.tokens == old(self).tokens,
                self.end_position == old(self).end_position,
                len == self.tokens@.len(),
                toks == self.toks(),
                p0 <= self.pointer as int,
                p == if to_args {
                    arg_stop()
                } else {
                    sep_stop()
                },
                adv_until(toks, p0, p) == adv_until(toks, self.pointer as int, p),
            ensures
                self.tokens == old(self).tokens,
                self.end_position == old(self).end_position,
                len == self.tokens@.len(),
                toks == self.toks(),
                p0 <= self.pointer as int,
                p == if to_args {
                    arg_stop()
                } else {
                    sep_stop()
                },
                adv_until(toks, p0, p) == adv_until(toks, self.pointer as int, p),
                self.pointer >= len || p(toks[self.pointer as int].tok),
                self.pointer >= len ==> adv_until(toks, self.pointer as int, p) == (
                    None::<TokenM>,
                    self.pointer as int,
                ),
                self.pointer < len ==> adv_until(toks, self.pointer as int, p) == (
                    Some(toks[self.pointer as int]),
                    self.pointer as int,
                ),
            decreases toks_rem(len as int, self.pointer as int),
        {
            if self.pointer >= len {
                break;
            }
            let ghost before = self.pointer as int;
            self.visit_ws();
            let n = self.pointer;
            if n >= len {
                proof {
                    assert(adv_until(toks, before, p) == (None::<TokenM>, n as int));
                }
                break;
            }
            let hit = match &self.tokens[n].token {
                TToken::ArgumentInitalizer => to_args,
                TToken::ArgumentSeperator => !to_args,
                TToken::CloseTag => true,
                _ => false,
            };
            proof {
                assert(toks[n as int] == self.tokens@[n as int]@);
                assert(hit == p(toks[n as int].tok));
                if before < len {
                    assert(adv_until(toks, before, p) == if p(toks[n as int].tok) {
                        (Some(toks[n as int]), n as int)
                    } else {
                        adv_until(toks, n as int + 1, p)
                    });
                }
            }
            if hit {
                break;
            }
            self.pointer = n + 1;
        }
        if self.pointer >= len {
            None
        } else {
            Some(self.tokens[self.pointer].end)
        }
    }
}


/// How the token after a property's first identifier is handled.
enum T2 {
    Dot,
    Stay,
    Recover,
}

/// How a token inside a dotted chain is handled.
enum C {
    Dot,
    Junk,
    Id,
    Strg,
    Ws,
    Stop,
}

/// How a token inside an argument list is handled.
enum AC {
    Lit,
    Num,
    Prop,
    Sep,
    Junk,
    Ws,
    Close,
}

/// How a top-level token is handled.
enum BC {
    Text,
    Tag,
    Skip,
}

impl Parser {
    /// A tag's property: collect `name(.name)*` with recovery; findings go
    /// to `errors` in source order.
    fn tag_property(&mut self, errors: &mut Vec<ParserError>) -> (r: Option<PValue>)
        requires
            old(self).tokens@.len() > 0,
        ensures
            ({
                let res = parse_property(old(self).toks(), old(self).pointer as int);
                &&& final(self).tokens == old(self).tokens
                &&& final(self).end_position == old(self).end_position
                &&& final(self).pointer == res.2
                &&& final(self).pointer >= old(self).pointer + 1 || final(self).pointer
                    >= old(self).tokens@.len()
                &&& match (r, res.0) {
                    (Some(pv), Some(pm)) => pv@ == PValM::Property(pm),
                    (None, None) => true,
                    _ => false,
                }
                &&& errs_of(final(errors)@) == errs_of(old(errors)@) + res.1
            }),
    {
        let ghost toks = self.toks();
        self.visit_ws();
        let n = self.pointer;
        if n >= self.tokens.len() {
            let last = self.tokens.len() - 1;
            let le = self.tokens[last].end;
            proof {
                assert(toks[last as int] == self.tokens@[last as int]@);
            }
            push_err(errors, "Unexpected EOF expected Property", le, le);
            return None;
        }
        let init_start = self.tokens[n].start;
        let init_end = self.tokens[n].end;
        let id_opt: Option<String> = match &self.tokens[n].token {
            TToken::Ident(s) => Some(s.clone()),
            _ => None,
        };
        proof {
            assert(toks[n as int] == self.tokens@[n as int]@);
        }
        self.pointer = n + 1;
        let id = match id_opt {
            Some(id) => id,
            None => {
                push_err(errors, "Expected Identifyer", init_start, init_start);
                return None;
            },
        };
        self.visit_ws();
        let n2 = self.pointer;
        if n2 >= self.tokens.len() {
            // unclosed tag: keep the collected segment; `tag_expression`
            // reports the missing `}`
            let ghost idv = id@;
            let value = vec![id];
            proof {
                assert(segs_of(value@) =~= seq![idv]);
            }
            return Some(
                PValue::Property(
                    Property {
                        _type: "Property".to_owned(),
                        value,
                        start: init_start,
                        end: init_end,
                    },
                ),
            );
        }
        let t2_start = self.tokens[n2].start;
        let t2_end = self.tokens[n2].end;
        proof {
            assert(toks[n2 as int] == self.tokens@[n2 as int]@);
        }
        let t2_class = match &self.tokens[n2].token {
            TToken::Dot => T2::Dot,
            TToken::ArgumentInitalizer | TToken::CloseTag | TToken::Text(_) | TToken::WS => T2::Stay,
            _ => T2::Recover,
        };
        match t2_class {
            T2::Stay => {
                let ghost idv = id@;
                let value = vec![id];
                proof {
                    assert(segs_of(value@) =~= seq![idv]);
                    assert(errs_of(errors@) + Seq::<PErrM>::empty() =~= errs_of(errors@));
                }
                Some(
                    PValue::Property(
                        Property {
                            _type: "Property".to_owned(),
                            value,
                            start: init_start,
                            end: init_end,
                        },
                    ),
                )
            },
            T2::Recover => {
                self.pointer = n2 + 1;
                let et = self.advance_until(true);
                let end_pos = match et {
                    Some(p) => p,
                    None => t2_end,
                };
                push_err(errors, "Unexpected Token", t2_start, end_pos);
                let ghost idv = id@;
                let value = vec![id];
                proof {
                    assert(segs_of(value@) =~= seq![idv]);
                }
                Some(
                    PValue::Property(
                        Property {
                            _type: "Property".to_owned(),
                            value,
                            start: init_start,
                            end: init_end,
                        },
                    ),
                )
            },
            T2::Dot => {
                self.pointer = n2 + 1;
                let ghost idv = id@;
                let mut idents: Vec<String> = Vec::new();
                idents.push(id);
                let mut lwd = true;
                let mut last_end = init_end;
                let len = self.tokens.len();
                let ghost p0 = self.pointer as int;
                let ghost total = parse_prop_loop(toks, p0, seq![idv], true, init_end@);
                let ghost mut acc: Seq<PErrM> = Seq::empty();
                let ghost e0 = errs_of(errors@);
                proof {
                    assert(segs_of(idents@) =~= seq![idv]);
                }
                loop
                    invariant
                        self.tokens == old(self).tokens,
                        self.end_position == old(self).end_position,
                        len == self.tokens@.len(),
                        toks == self.toks(),
                        p0 <= self.pointer as int,
                        errs_of(errors@) == e0 + acc,
                        total == ({
                            let cur = parse_prop_loop(
                                toks,
                                self.pointer as int,
                                segs_of(idents@),
                                lwd,
                                last_end@,
                            );
                            (cur.0, acc + cur.1, cur.2, cur.3)
                        }),
                    ensures
                        self.tokens == old(self).tokens,
                        self.end_position == old(self).end_position,
                        toks == self.toks(),
                        p0 <= self.pointer as int,
                        errs_of(errors@) == e0 + acc,
                        total == (segs_of(idents@), acc, self.pointer as int, last_end@),
                    decreases toks_rem(len as int, self.pointer as int),
                {
                    if self.pointer >= len {
                        proof {
                            assert(acc + Seq::<PErrM>::empty() =~= acc);
                        }
                        break;
                    }
                    let ghost before = self.pointer as int;
                    self.visit_ws();
                    let m = self.pointer;
                    if m >= len {
                        proof {
                            assert(acc + Seq::<PErrM>::empty() =~= acc);
                        }
                        break;
                    }
                    let m_start = self.tokens[m].start;
                    let m_end = self.tokens[m].end;
                    proof {
                        assert(toks[m as int] == self.tokens@[m as int]@);
                    }
                    let cls = match &self.tokens[m].token {
                        TToken::Dot => C::Dot,
                        TToken::ArgumentSeperator | TToken::Int(_) => C::Junk,
                        TToken::Ident(_) => C::Id,
                        TToken::String(_) => C::Strg,
                        TToken::Text(_) | TToken::OpenTag => C::Junk,
                        TToken::WS => C::Ws,
                        TToken::ArgumentInitalizer | TToken::CloseTag => C::Stop,
                    };
                    let ghost segs_now = segs_of(idents@);
                    match cls {
                        C::Stop => {
                            proof {
                                assert(acc + Seq::<PErrM>::empty() =~= acc);
                            }
                            break;
                        },
                        C::Dot => {
                            if lwd {
                                push_err(errors, "Unexpected '.'", m_start, m_end);
                                proof {
                                    let here = seq![perr("Unexpected '.'"@, m_start@, m_end@)];
                                    let rest = parse_prop_loop(toks, m + 1, segs_now, true, last_end@);
                                    lemma_assoc(acc, here, rest.1);
                                    acc = acc + here;
                                }
                            } else {
                                lwd = true;
                            }
                            self.pointer = m + 1;
                        },
                        C::Junk => {
                            push_err(errors, "Unexpected Token", m_start, m_end);
                            proof {
                                let here = seq![perr("Unexpected Token"@, m_start@, m_end@)];
                                let rest = parse_prop_loop(toks, m + 1, segs_now, lwd, last_end@);
                                lemma_assoc(acc, here, rest.1);
                                acc = acc + here;
                            }
                            self.pointer = m + 1;
                        },
                        C::Strg => {
                            push_err(errors, "Unexpected String", m_start, m_end);
                            proof {
                                let here = seq![perr("Unexpected String"@, m_start@, m_end@)];
                                let rest = parse_prop_loop(toks, m + 1, segs_now, lwd, last_end@);
                                lemma_assoc(acc, here, rest.1);
                                acc = acc + here;
                            }
                            self.pointer = m + 1;
                        },
                        C::Ws => {
                            self.pointer = m + 1;
                        },
                        C::Id => {
                            let idnt = match &self.tokens[m].token {
                                TToken::Ident(s) => s.clone(),
                                _ => String::new(),
                            };
                            self.pointer = m + 1;
                            if !lwd {
                                let et = self.advance_until(true);
                                let end_pos = match et {
                                    Some(p) => p,
                                    None => m_end,
                                };
                                push_err(errors, "Unexpected Token", m_start, end_pos);
                                proof {
                                    let skip = adv_until(toks, m + 1, arg_stop());
                                    let sj = if skip.1 < m + 1 {
                                        m + 1
                                    } else {
                                        skip.1
                                    };
                                    assert(sj == skip.1);
                                    let here = seq![perr("Unexpected Token"@, m_start@, end_pos@)];
                                    let rest = parse_prop_loop(toks, sj, segs_now, lwd, last_end@);
                                    lemma_assoc(acc, here, rest.1);
                                    acc = acc + here;
                                }
                            } else {
                                let ghost iv = idnt@;
                                idents.push(idnt);
                                lwd = false;
                                last_end = m_end;
                                proof {
                                    assert(segs_of(idents@) =~= segs_now.push(iv));
                                }
                            }
                        },
                    }
                }
                if idents.len() < 2 {
                    push_err(errors, "Expected Idnt", t2_start, t2_end);
                    proof {
                        lemma_assoc(
                            e0,
                            acc,
                            seq![perr("Expected Idnt"@, t2_start@, t2_end@)],
                        );
                    }
                } else {
                    proof {
                        assert(acc + Seq::<PErrM>::empty() =~= acc);
                    }
                }
                Some(
                    PValue::Property(
                        Property {
                            _type: "Property".to_owned(),
                            value: idents,
                            start: init_start,
                            end: last_end,
                        },
                    ),
                )
            },
        }
    }
}

impl Parser {
    /// The dotted chain of a property passed as an argument, after its first
    /// identifier has been consumed.
    fn tag_arg_construct_ident(
        &mut self,
        token_start: PPosition,
        token_end: PPosition,
        inital: String,
        errors: &mut Vec<ParserError>,
    ) -> (r: Property)
        ensures
            ({
                let sub = parse_arg_ident_loop(
                    old(self).toks(),
                    old(self).pointer as int,
                    seq![inital@],
                    false,
                    token_end@,
                );
                &&& final(self).tokens == old(self).tokens
                &&& final(self).end_position == old(self).end_position
                &&& final(self).pointer == sub.2
                &&& final(self).pointer >= old(self).pointer
                &&& r@ == (PropM { segs: sub.0, start: token_start@, end: sub.3 })
                &&& errs_of(final(errors)@) == errs_of(old(errors)@) + sub.1
            }),
    {
        let ghost toks = self.toks();
        let ghost p0 = self.pointer as int;
        let ghost e0 = errs_of(errors@);
        let ghost initv = inital@;
        let mut idents: Vec<String> = Vec::new();
        idents.push(inital);
        let mut lwd = false;
        let mut last_end = token_end;
        let len = self.tokens.len();
        let ghost total = parse_arg_ident_loop(toks, p0, seq![initv], false, token_end@);
        let ghost mut acc: Seq<PErrM> = Seq::empty();
        proof {
            assert(segs_of(idents@) =~= seq![initv]);
        }
        loop
            invariant
                self.tokens == old(self).tokens,
                self.end_position == old(self).end_position,
                len == self.tokens@.len(),
                toks == self.toks(),
                p0 <= self.pointer as int,
                errs_of(errors@) == e0 + acc,
                total == ({
                    let cur = parse_arg_ident_loop(
                        toks,
                        self.pointer as int,
                        segs_of(idents@),
                        lwd,
                        last_end@,
                    );
                    (cur.0, acc + cur.1, cur.2, cur.3)
                }),
            ensures
                self.tokens == old(self).tokens,
                self.end_position == old(self).end_position,
                toks == self.toks(),
                p0 <= self.pointer as int,
                errs_of(errors@) == e0 + acc,
                total == (segs_of(idents@), acc, self.pointer as int, last_end@),
            decreases toks_rem(len as int, self.pointer as int),
        {
            if self.pointer >= len {
                proof {
                    assert(acc + Seq::<PErrM>::empty() =~= acc);
                }
                break;
            }
            self.visit_ws();
            let m = self.pointer;
            if m >= len {
                proof {
                    assert(acc + Seq::<PErrM>::empty() =~= acc);
                }
                break;
            }
            let m_start = self.tokens[m].start;
            let m_end = self.tokens[m].end;
            proof {
                assert(toks[m as int] == self.tokens@[m as int]@);
            }
            let cls = match &self.tokens[m].token {
                TToken::Dot => C::Dot,
                TToken::Ident(_) => C::Id,
                TToken::String(_) | TToken::ArgumentInitalizer | TToken::Int(_) | TToken::Text(_)
                | TToken::OpenTag => C::Junk,
                TToken::WS => C::Ws,
                TToken::CloseTag | TToken::ArgumentSeperator => C::Stop,
            };
            let ghost segs_now = segs_of(idents@);
            match cls {
                C::Stop => {
                    proof {
                        assert(acc + Seq::<PErrM>::empty() =~= acc);
                    }
                    break;
                },
                C::Dot => {
                    if lwd {
                        push_err(errors, "Unexpected '.'", m_start, m_end);
                        proof {
                            let here = seq![perr("Unexpected '.'"@, m_start@, m_end@)];
                            let rest = parse_arg_ident_loop(toks, m + 1, segs_now, true, last_end@);
                            lemma_assoc(acc, here, rest.1);
                            acc = acc + here;
                        }
                    } else {
                        lwd = true;
                    }
                    self.pointer = m + 1;
                },
                C::Junk | C::Strg => {
                    push_err(errors, "Unexpected Token", m_start, m_end);
                    proof {
                        let here = seq![perr("Unexpected Token"@, m_start@, m_end@)];
                        let rest = parse_arg_ident_loop(toks, m + 1, segs_now, lwd, last_end@);
                        lemma_assoc(acc, here, rest.1);
                        acc = acc + here;
                    }
                    self.pointer = m + 1;
                },
                C::Ws => {
                    self.pointer = m + 1;
                },
                C::Id => {
                    let idnt = match &self.tokens[m].token {
                        TToken::Ident(s) => s.clone(),
                        _ => String::new(),
                    };
                    self.pointer = m + 1;
                    if !lwd {
                        let et = self.advance_until(false);
                        let end_pos = match et {
                            Some(p) => p,
                            None => m_end,
                        };
                        push_err(errors, "Unexpected Token", m_start, end_pos);
                        proof {
                            let skip = adv_until(toks, m + 1, sep_stop());
                            let sj = if skip.1 < m + 1 {
                                m + 1
                            } else {
                                skip.1
                            };
                            assert(sj == skip.1);
                            let here = seq![perr("Unexpected Token"@, m_start@, end_pos@)];
                            let rest = parse_arg_ident_loop(toks, sj, segs_now, lwd, last_end@);
                            lemma_assoc(acc, here, rest.1);
                            acc = acc + here;
                        }
                    } else {
                        let ghost iv = idnt@;
                        idents.push(idnt);
                        lwd = false;
                        last_end = m_end;
                        proof {
                            assert(segs_of(idents@) =~= segs_now.push(iv));
                        }
                    }
                },
            }
        }
        Property { _type: "Property".to_owned(), value: idents, start: token_start, end: last_end }
    }

    /// A tag's argument list, present only after `|`: literals and property
    /// chains separated by `;`, with recovery.
    fn tag_arguments(&mut self, errors: &mut Vec<ParserError>) -> (r: Option<Vec<Arg>>)
        requires
            old(self).tokens@.len() > 0,
        ensures
            ({
                let res = parse_arguments(old(self).toks(), old(self).pointer as int);
                &&& final(self).tokens == old(self).tokens
                &&& final(self).end_position == old(self).end_position
                &&& final(self).pointer == res.2
                &&& final(self).pointer >= old(self).pointer
                &&& match (r, res.0) {
                    (Some(v), Some(s)) => args_of(v@) == s,
                    (None, None) => true,
                    _ => false,
                }
                &&& errs_of(final(errors)@) == errs_of(old(errors)@) + res.1
            }),
    {
        let ghost toks = self.toks();
        self.visit_ws();
        let n = self.pointer;
        if n >= self.tokens.len() {
            let last = self.tokens.len() - 1;
            let ls = self.tokens[last].start;
            let le = self.tokens[last].end;
            proof {
                assert(toks[last as int] == self.tokens@[last as int]@);
            }
            push_err(errors, "Unexpected EOF", ls, le);
            return None;
        }
        let is_init = match &self.tokens[n].token {
            TToken::ArgumentInitalizer => true,
            _ => false,
        };
        proof {
            assert(toks[n as int] == self.tokens@[n as int]@);
        }
        if !is_init {
            proof {
                assert(errs_of(errors@) + Seq::<PErrM>::empty() =~= errs_of(errors@));
            }
            return None;
        }
        self.pointer = n + 1;
        let mut arguments: Vec<Arg> = Vec::new();
        let mut expect_sep = false;
        let len = self.tokens.len();
        let ghost p0 = self.pointer as int;
        let ghost total = parse_args_loop(toks, p0, Seq::empty(), false);
        let ghost mut acc: Seq<PErrM> = Seq::empty();
        let ghost e0 = errs_of(errors@);
        proof {
            assert(args_of(arguments@) =~= Seq::<ArgM>::empty());
        }
        loop
            invariant
                self.tokens == old(self).tokens,
                self.end_position == old(self).end_position,
                len == self.tokens@.len(),
                len > 0,
                toks == self.toks(),
                p0 <= self.pointer as int,
                old(self).pointer <= self.pointer,
                errs_of(errors@) == e0 + acc,
                e0 == errs_of(old(errors)@),
                total == parse_arguments(old(self).toks(), old(self).pointer as int),
                total == ({
                    let cur = parse_args_loop(
                        toks,
                        self.pointer as int,
                        args_of(arguments@),
                        expect_sep,
                    );
                    (cur.0, acc + cur.1, cur.2)
                }),
            ensures
                self.tokens == old(self).tokens,
                self.end_position == old(self).end_position,
                toks == self.toks(),
                p0 <= self.pointer as int,
                errs_of(errors@) == e0 + acc,
                total == (
                    if args_of(arguments@).len() > 0 {
                        Some(args_of(arguments@))
                    } else {
                        None
                    },
                    acc,
                    self.pointer as int,
                ),
            decreases toks_rem(len as int, self.pointer as int),
        {
            if self.pointer >= len {
                proof {
                    assert(acc + Seq::<PErrM>::empty() =~= acc);
                    assert(args_of(arguments@).len() == arguments@.len());
                }
                break;
            }
            let ghost i_iter = self.pointer as int;
            self.visit_ws();
            let m = self.pointer;
            if m >= len {
                let last = self.tokens.len() - 1;
                let ls = self.tokens[last].start;
                let le = self.tokens[last].end;
                proof {
                    assert(toks[last as int] == self.tokens@[last as int]@);
                }
                push_err(errors, "Unexpected EOF expected Arg", ls, le);
                proof {
                    let here = seq![
                        perr("Unexpected EOF expected Arg"@, last_tok(toks).start, last_tok(toks).end),
                    ];
                    let cur = parse_args_loop(toks, i_iter, args_of(arguments@), expect_sep);
                    assert(cur == (None::<Seq<ArgM>>, here, m as int));
                    lemma_assoc(e0, acc, here);
                    acc = acc + here;
                }
                return None;
            }
            let m_start = self.tokens[m].start;
            let m_end = self.tokens[m].end;
            proof {
                assert(toks[m as int] == self.tokens@[m as int]@);
            }
            let cls = match &self.tokens[m].token {
                TToken::String(_) => AC::Lit,
                TToken::Int(_) => AC::Num,
                TToken::Ident(_) => AC::Prop,
                TToken::ArgumentSeperator => AC::Sep,
                TToken::ArgumentInitalizer | TToken::Dot | TToken::Text(_) | TToken::OpenTag => AC::Junk,
                TToken::WS => AC::Ws,
                TToken::CloseTag => AC::Close,
            };
            let ghost args_now = args_of(arguments@);
            match cls {
                AC::Ws => {
                    self.pointer = m + 1;
                },
                AC::Close => {
                    // `}` ends the list
                    proof {
                        assert(acc + Seq::<PErrM>::empty() =~= acc);
                        assert(args_of(arguments@).len() == arguments@.len());
                    }
                    break;
                },
                AC::Lit => {
                    // a quoted string literal argument
                    let text = match &self.tokens[m].token {
                        TToken::String(s) => s.clone(),
                        _ => String::new(),
                    };
                    self.pointer = m + 1;
                    let ghost sep_here: Seq<PErrM> = if expect_sep {
                        seq![perr("Expected ';'"@, m_start@, m_start@)]
                    } else {
                        Seq::empty()
                    };
                    if expect_sep {
                        push_err(errors, "Expected ';'", m_start, m_start);
                    }
                    let ghost tv = text@;
                    let arg = Arg::Single(
                        Argument {
                            _type: "ArgSingle".to_owned(),
                            value: PValue::String {
                                _type: "String".to_owned(),
                                start: m_start,
                                end: m_end,
                                value: text,
                            },
                            start: m_start,
                            end: m_end,
                        },
                    );
                    let ghost am = arg@;
                    arguments.push(arg);
                    expect_sep = true;
                    proof {
                        assert(args_of(arguments@) =~= args_now.push(am));
                        let rest = parse_args_loop(toks, m + 1, args_now.push(am), true);
                        lemma_assoc(acc, sep_here, rest.1);
                        if sep_here.len() == 0 {
                            assert(acc + sep_here =~= acc);
                        }
                        acc = acc + sep_here;
                    }
                },
                AC::Num => {
                    // an integer literal argument
                    let value = match &self.tokens[m].token {
                        TToken::Int(v) => *v,
                        _ => 0,
                    };
                    self.pointer = m + 1;
                    let ghost sep_here: Seq<PErrM> = if expect_sep {
                        seq![perr("Expected ';'"@, m_start@, m_start@)]
                    } else {
                        Seq::empty()
                    };
                    if expect_sep {
                        push_err(errors, "Expected ';'", m_start, m_start);
                    }
                    let arg = Arg::Single(
                        Argument {
                            _type: "ArgSingle".to_owned(),
                            value: PValue::Int {
                                _type: "Int".to_owned(),
                                start: m_start,
                                end: m_end,
                                value,
                            },
                            start: m_start,
                            end: m_end,
                        },
                    );
                    let ghost am = arg@;
                    arguments.push(arg);
                    expect_sep = true;
                    proof {
                        assert(args_of(arguments@) =~= args_now.push(am));
                        let rest = parse_args_loop(toks, m + 1, args_now.push(am), true);
                        lemma_assoc(acc, sep_here, rest.1);
                        if sep_here.len() == 0 {
                            assert(acc + sep_here =~= acc);
                        }
                        acc = acc + sep_here;
                    }
                },
                AC::Prop => {
                    // a property-chain argument
                    let idnt = match &self.tokens[m].token {
                        TToken::Ident(s) => s.clone(),
                        _ => String::new(),
                    };
                    self.pointer = m + 1;
                    let ghost sep_here: Seq<PErrM> = if expect_sep {
                        seq![perr("Expected ';'"@, m_start@, m_start@)]
                    } else {
                        Seq::empty()
                    };
                    if expect_sep {
                        push_err(errors, "Expected ';'", m_start, m_start);
                    }
                    let ghost idv = idnt@;
                    let ghost acc_mid = acc + sep_here;
                    proof {
                        if sep_here.len() == 0 {
                            assert(acc_mid =~= acc);
                        }
                    }
                    let prop = self.tag_arg_construct_ident(m_start, m_end, idnt, errors);
                    let p_start = prop.start;
                    let p_end = prop.end;
                    let arg = Arg::Single(
                        Argument {
                            _type: "ArgSingle".to_owned(),
                            start: p_start,
                            end: p_end,
                            value: PValue::Property(prop),
                        },
                    );
                    let ghost am = arg@;
                    arguments.push(arg);
                    expect_sep = true;
                    proof {
                        let sub = parse_arg_ident_loop(toks, m + 1, seq![idv], false, m_end@);
                        let sj = if sub.2 < m + 1 {
                            m + 1
                        } else {
                            sub.2
                        };
                        assert(sj == sub.2);
                        assert(args_of(arguments@) =~= args_now.push(am));
                        let rest = parse_args_loop(toks, sj, args_now.push(am), true);
                        // regroup acc + (sep + (sub + rest)) step by step
                        lemma_assoc(sep_here, sub.1, rest.1);
                        lemma_assoc(acc, sep_here, sub.1 + rest.1);
                        lemma_assoc(acc_mid, sub.1, rest.1);
                        acc = acc_mid + sub.1;
                    }
                },
                AC::Sep => {
                    // `;` resets the separator expectation
                    self.pointer = m + 1;
                    expect_sep = false;
                },
                AC::Junk => {
                    push_err(errors, "Unexpected Token", m_start, m_end);
                    proof {
                        let here = seq![perr("Unexpected Token"@, m_start@, m_end@)];
                        let rest = parse_args_loop(toks, m + 1, args_now, expect_sep);
                        lemma_assoc(acc, here, rest.1);
                        acc = acc + here;
                    }
                    self.pointer = m + 1;
                },
            }
        }
        if arguments.len() > 0 {
            Some(arguments)
        } else {
            None
        }
    }
}

impl Parser {
    /// Everything after `{`: property, arguments, and the closing `}` check.
    /// Besides the expression, the caller gets the end position of the tag's
    /// last consumed token, which closes the tag statement's span.
    fn tag_expression(&mut self, errors: &mut Vec<ParserError>) -> (r: (Expression, PPosition))
        requires
            old(self).tokens@.len() > 0,
        ensures
            ({
                let res = parse_expression(old(self).toks(), old(self).pointer as int);
                &&& final(self).tokens == old(self).tokens
                &&& final(self).end_position == old(self).end_position
                &&& final(self).pointer == res.2
                &&& final(self).pointer >= old(self).pointer + 1 || final(self).pointer
                    >= old(self).tokens@.len()
                &&& r.0@ == res.0
                &&& r.1@ == res.3
                &&& errs_of(final(errors)@) == errs_of(old(errors)@) + res.1
            }),
    {
        let ghost toks = self.toks();
        let ghost i0 = self.pointer as int;
        let ghost e_in = errs_of(errors@);
        let property = self.tag_property(errors);
        let ghost pres = parse_property(toks, i0);
        let arguments = self.tag_arguments(errors);
        let ghost ares = parse_arguments(toks, pres.2);
        proof {
            lemma_assoc(e_in, pres.1, ares.1);
        }
        let exp = Expression { _type: "Expression".to_owned(), property, arguments };
        let ghost expv = exp@;
        let last = self.tokens.len() - 1;
        let le = self.tokens[last].end;
        proof {
            assert(toks[last as int] == self.tokens@[last as int]@);
        }
        self.visit_ws();
        let n = self.pointer;
        if n >= self.tokens.len() {
            push_err(errors, "Unexpected EOF expected '}'", le, le);
            proof {
                lemma_assoc(e_in, pres.1 + ares.1, seq![
                    perr("Unexpected EOF expected '}'"@, last_tok(toks).end, last_tok(toks).end),
                ]);
            }
            return (exp, le);
        }
        let close_end = self.tokens[n].end;
        let is_close = match &self.tokens[n].token {
            TToken::CloseTag => true,
            _ => false,
        };
        proof {
            assert(toks[n as int] == self.tokens@[n as int]@);
        }
        self.pointer = n + 1;
        if !is_close {
            push_err(errors, "Expected '}'", le, le);
            proof {
                lemma_assoc(e_in, pres.1 + ares.1, seq![
                    perr("Expected '}'"@, last_tok(toks).end, last_tok(toks).end),
                ]);
            }
        }
        (exp, close_end)
    }

    /// The top-level statement loop: text passes through, `{` opens a tag,
    /// anything else at the top level is skipped.
    #[verifier::rlimit(60)]
    fn body(&mut self, errors: &mut Vec<ParserError>) -> (r: Vec<Stat>)
        ensures
            ({
                let res = parse_body(old(self).toks(), old(self).pointer as int);
                &&& final(self).tokens == old(self).tokens
                &&& final(self).end_position == old(self).end_position
                &&& stats_of(r@) == res.0
                &&& errs_of(final(errors)@) == errs_of(old(errors)@) + res.1
            }),
    {
        let ghost toks = self.toks();
        let ghost p0 = self.pointer as int;
        let ghost total = parse_body(toks, p0);
        let mut body: Vec<Stat> = Vec::new();
        let ghost mut acc: Seq<PErrM> = Seq::empty();
        proof {
            assert(stats_of(body@) =~= Seq::<StatM>::empty());
        }
        loop
            invariant
                self.tokens == old(self).tokens,
                self.end_position == old(self).end_position,
                toks == self.toks(),
                errs_of(errors@) == errs_of(old(errors)@) + acc,
                total.0 == stats_of(body@) + parse_body(toks, self.pointer as int).0,
                total.1 == acc + parse_body(toks, self.pointer as int).1,
            ensures
                self.tokens == old(self).tokens,
                self.end_position == old(self).end_position,
                toks == self.toks(),
                errs_of(errors@) == errs_of(old(errors)@) + acc,
                total.0 == stats_of(body@),
                total.1 == acc,
            decreases toks_rem(self.tokens@.len() as int, self.pointer as int),
        {
            let len = self.tokens.len();
            if self.pointer >= len {
                proof {
                    assert(stats_of(body@) + Seq::<StatM>::empty() =~= stats_of(body@));
                    assert(acc + Seq::<PErrM>::empty() =~= acc);
                }
                break;
            }
            self.visit_ws();
            let n = self.pointer;
            if n >= len {
                self.pointer = n;
                proof {
                    assert(stats_of(body@) + Seq::<StatM>::empty() =~= stats_of(body@));
                    assert(acc + Seq::<PErrM>::empty() =~= acc);
                }
                break;
            }
            let n_start = self.tokens[n].start;
            let n_end = self.tokens[n].end;
            proof {
                assert(toks[n as int] == self.tokens@[n as int]@);
            }
            let cls = match &self.tokens[n].token {
                TToken::Text(_) => BC::Text,
                TToken::OpenTag => BC::Tag,
                _ => BC::Skip,
            };
            let ghost body_now = stats_of(body@);
            match cls {
                BC::Text => {
                    let text = match &self.tokens[n].token {
                        TToken::Text(s) => s.clone(),
                        _ => String::new(),
                    };
                    self.pointer = n + 1;
                    let st = Stat::Text {
                        _type: "Text".to_owned(),
                        value: text,
                        start: n_start,
                        end: n_end,
                    };
                    let ghost sm = st@;
                    body.push(st);
                    proof {
                        let rest = parse_body(toks, n + 1);
                        assert(stats_of(body@) =~= body_now.push(sm));
                        assert(body_now + (seq![sm] + rest.0) =~= body_now.push(sm) + rest.0);
                    }
                },
                BC::Tag => {
                    self.pointer = n + 1;
                    let (tag, tag_end) = self.tag_expression(errors);
                    let ghost e = parse_expression(toks, n + 1);
                    let st = Stat::Tag {
                        _type: "Tag".to_owned(),
                        start: n_start,
                        end: tag_end,
                        value: tag,
                    };
                    let ghost sm = st@;
                    body.push(st);
                    proof {
                        let j = if e.2 < n + 2 {
                            n + 2
                        } else {
                            e.2
                        };
                        let rest = parse_body(toks, j);
                        if self.pointer as int != j {
                            // the tag ran to the end of input: both indices
                            // are past the token list
                            assert(self.pointer >= self.tokens@.len());
                            assert(j >= toks.len());
                            assert(parse_body(toks, self.pointer as int) == (
                                Seq::<StatM>::empty(),
                                Seq::<PErrM>::empty(),
                            ));
                            assert(rest == (Seq::<StatM>::empty(), Seq::<PErrM>::empty()));
                        }
                        assert(stats_of(body@) =~= body_now.push(sm));
                        assert(body_now + (seq![sm] + rest.0) =~= body_now.push(sm) + rest.0);
                        lemma_assoc(acc, e.1, rest.1);
                        acc = acc + e.1;
                    }
                },
                _ => {
                    self.pointer = n + 1;
                },
            }
        }
        body
    }

    /// Parse the whole token list: a best-effort tree plus the findings in
    /// source order. Parsing never fails.
    pub fn parse(&mut self) -> (r: ParserResults)
        requires
            old(self).pointer == 0,
        ensures
            ({
                let res = parse_spec(old(self).toks());
                &&& final(self).tokens == old(self).tokens
                &&& final(self).end_position == old(self).end_position
                &&& stats_of(r.ast.body@) == res.0
                &&& errs_of(r.errors@) == res.1
                &&& r.ast.start@ == (PosM { row: 0, col: 0 })
                &&& r.ast.end == old(self).end_position
            }),
    {
        let mut errors: Vec<ParserError> = Vec::new();
        proof {
            assert(errs_of(errors@) =~= Seq::<PErrM>::empty());
        }
        let body = self.body(&mut errors);
        proof {
            assert(Seq::<PErrM>::empty() + parse_spec(old(self).toks()).1 =~= parse_spec(
                old(self).toks(),
            ).1);
        }
        ParserResults {
            errors,
            ast: Source {
                _type: "Source".to_owned(),
                start: PPosition { column: 0, line: 0 },
                end: self.end_position,
                body,
            },
        }
    }
}

// ---------------------------------------------------------------------------
// Law: segment order is preserved
// ---------------------------------------------------------------------------

/// The token index of a dotted tag's `k`-th identifier.
pub open spec fn ident_idx(k: int) -> int {
    1 + 2 * k
}

/// The token index of the dot after a dotted tag's `k`-th identifier.
pub open spec fn dot_idx(k: int) -> int {
    2 + 2 * k
}

/// The shape of a well-formed dotted chain at the token level: after an
/// opening token, the identifiers of `ids` separated by single dots, closed
/// by `}` or by the argument initializer `|`; anything may follow the
/// boundary.
pub open spec fn dotted_chain_tokens(toks: Seq<TokenM>, ids: Seq<Seq<char>>) -> bool {
    &&& 2 * ids.len() < toks.len()
    &&& ids.len() >= 1
    &&& (toks[2 * ids.len() as int].tok is CloseTag || toks[2 * ids.len() as int].tok is ArgInit)
    &&& forall|k: int|
        0 <= k < ids.len() ==> (#[trigger] toks[ident_idx(k)]).tok == TokM::Ident(ids[k])
    &&& forall|k: int| 0 <= k < ids.len() - 1 ==> (#[trigger] toks[dot_idx(k)]).tok is Dot
}

/// The shape of a whole well-formed dotted tag: `{`, the chain, `}`, and
/// nothing after.
pub open spec fn dotted_tag_tokens(toks: Seq<TokenM>, ids: Seq<Seq<char>>) -> bool {
    &&& toks.len() == 2 * ids.len() + 1
    &&& ids.len() >= 1
    &&& toks[0].tok is OpenTag
    &&& toks[toks.len() - 1].tok is CloseTag
    &&& forall|k: int|
        0 <= k < ids.len() ==> (#[trigger] toks[ident_idx(k)]).tok == TokM::Ident(ids[k])
    &&& forall|k: int| 0 <= k < ids.len() - 1 ==> (#[trigger] toks[dot_idx(k)]).tok is Dot
}

proof fn lemma_prop_loop_dotted(toks: Seq<TokenM>, ids: Seq<Seq<char>>, k: int, last: PosM)
    requires
        dotted_chain_tokens(toks, ids),
        1 <= k < ids.len(),
    ensures
        parse_prop_loop(toks, 1 + 2 * k, ids.take(k), true, last) == (
            ids,
            Seq::<PErrM>::empty(),
            2 * ids.len() as int,
            toks[2 * ids.len() - 1].end,
        ),
    decreases ids.len() - k,
{
    let l = ids.len() as int;
    let i = 1 + 2 * k;
    assert(toks[ident_idx(k)].tok == TokM::Ident(ids[k]));
    assert(toks[i].tok == TokM::Ident(ids[k]));
    assert(ws_run(toks, i) == 0);
    assert(ids.take(k).push(ids[k]) =~= ids.take(k + 1));
    let after = parse_prop_loop(toks, i + 1, ids.take(k + 1), false, toks[i].end);
    if k + 1 < l {
        assert(toks[dot_idx(k)].tok is Dot);
        assert(toks[i + 1].tok is Dot);
        assert(ws_run(toks, i + 1) == 0);
        lemma_prop_loop_dotted(toks, ids, k + 1, toks[i].end);
        assert(after == parse_prop_loop(toks, i + 2, ids.take(k + 1), true, toks[i].end));
        assert(Seq::<PErrM>::empty() + Seq::<PErrM>::empty() =~= Seq::<PErrM>::empty());
    } else {
        assert(i + 1 == 2 * l);
        assert(toks[i + 1].tok is CloseTag || toks[i + 1].tok is ArgInit);
        assert(ws_run(toks, i + 1) == 0);
        assert(ids.take(l) =~= ids);
        assert(i == 2 * l - 1);
        assert(after == (ids, Seq::<PErrM>::empty(), 2 * l, toks[2 * l - 1].end));
    }
    assert(Seq::<PErrM>::empty() + Seq::<PErrM>::empty() =~= Seq::<PErrM>::empty());
}

/// A dotted chain — ending at `}` or at an argument list's `|` — parses to
/// exactly those segments in the written order, with no findings, spanning
/// from the first segment to the end of the last, with the cursor resting on
/// the boundary token.
pub proof fn lemma_property_segments_ordered(toks: Seq<TokenM>, ids: Seq<Seq<char>>)
    requires
        dotted_chain_tokens(toks, ids),
    ensures
        parse_property(toks, 1) == (
            Some(
                PropM {
                    segs: ids,
                    start: toks[1].start,
                    end: toks[2 * ids.len() as int - 1].end,
                },
            ),
            Seq::<PErrM>::empty(),
            2 * ids.len() as int,
        ),
{
    let l = ids.len() as int;
    assert(toks[ident_idx(0)].tok == TokM::Ident(ids[0]));
    assert(toks[1].tok == TokM::Ident(ids[0]));
    assert(ws_run(toks, 1) == 0);
    if l == 1 {
        assert(toks[2].tok is CloseTag || toks[2].tok is ArgInit);
        assert(ws_run(toks, 2) == 0);
        assert(seq![ids[0]] =~= ids);
    } else {
        assert(toks[dot_idx(0)].tok is Dot);
        assert(toks[2].tok is Dot);
        assert(ws_run(toks, 2) == 0);
        lemma_prop_loop_dotted(toks, ids, 1, toks[1].end);
        assert(seq![ids[0]] =~= ids.take(1));
        assert(parse_prop_loop(toks, 3, seq![ids[0]], true, toks[1].end) == (
            ids,
            Seq::<PErrM>::empty(),
            2 * l,
            toks[2 * l - 1].end,
        ));
        assert(Seq::<PErrM>::empty() + Seq::<PErrM>::empty() =~= Seq::<PErrM>::empty());
    }
}

/// Property segment order is preserved exactly as written: a tag that spells
/// a dotted chain parses, without findings, to a single tag statement whose
/// property holds exactly those segments in source order — never reordered,
/// dropped or merged — spanning from the first segment to the end of the
/// last, inside a tag that spans its whole `{...}` block. The evaluator's
/// `resolve_path` then walks that segment sequence strictly left to right.
pub proof fn lemma_parse_preserves_segment_order(toks: Seq<TokenM>, ids: Seq<Seq<char>>)
    requires
        dotted_tag_tokens(toks, ids),
    ensures
        parse_spec(toks).1 == Seq::<PErrM>::empty(),
        parse_spec(toks).0.len() == 1,
        parse_spec(toks).0[0] matches StatM::Tag { start, end, expr } && start == toks[0].start
            && end == toks[2 * ids.len() as int].end && expr == (ExprM {
            property: Some(
                PValM::Property(
                    PropM {
                        segs: ids,
                        start: toks[1].start,
                        end: toks[2 * ids.len() as int - 1].end,
                    },
                ),
            ),
            arguments: None,
        }),
{
    let l = ids.len() as int;
    let len = toks.len() as int;
    assert(toks[0].tok is OpenTag);
    assert(ws_run(toks, 0) == 0);
    // the property, spanning all its segments
    lemma_property_segments_ordered(toks, ids);
    let p = parse_property(toks, 1);
    // the arguments: none, the cursor rests on `}`
    assert(toks[2 * l].tok is CloseTag);
    assert(ws_run(toks, 2 * l) == 0);
    let a = parse_arguments(toks, 2 * l);
    assert(a == (None::<Seq<ArgM>>, Seq::<PErrM>::empty(), 2 * l));
    // the closing brace
    let e = parse_expression(toks, 1);
    assert(Seq::<PErrM>::empty() + Seq::<PErrM>::empty() =~= Seq::<PErrM>::empty());
    assert(e.0 == (ExprM {
        property: Some(
            PValM::Property(
                PropM { segs: ids, start: toks[1].start, end: toks[2 * l - 1].end },
            ),
        ),
        arguments: None,
    }));
    assert(e.1 == Seq::<PErrM>::empty());
    assert(e.2 == 2 * l + 1);
    assert(e.3 == toks[2 * l].end);
    // the body: one tag statement spanning the whole block
    assert(parse_body(toks, 2 * l + 1) == (Seq::<StatM>::empty(), Seq::<PErrM>::empty()));
    let st = StatM::Tag { start: toks[0].start, end: toks[2 * l].end, expr: e.0 };
    assert(parse_spec(toks).0 =~= seq![st]);
    assert(parse_spec(toks).1 =~= Seq::<PErrM>::empty());
}

// ---------------------------------------------------------------------------
// Law: statements come out in source order
// ---------------------------------------------------------------------------

/// The start position a statement records.
pub open spec fn stat_start_pos(s: StatM) -> PosM {
    match s {
        StatM::Text { start, .. } => start,
        StatM::Tag { start, .. } => start,
    }
}

/// Every statement starts at some token's start at or after the cursor, and
/// with the tokens' starts in order, so are the statements': the parser
/// appends them in strict parse order.
pub proof fn lemma_parse_body_starts_ordered(toks: Seq<TokenM>, i: int)
    requires
        0 <= i,
        forall|a: int, b: int|
            0 <= a <= b < toks.len() ==> crate::lex::pos_le(
                (#[trigger] toks[a]).start,
                (#[trigger] toks[b]).start,
            ),
    ensures
        ({
            let stats = parse_body(toks, i).0;
            &&& forall|k: int|
                0 <= k < stats.len() ==> exists|n: int|
                    i <= n < toks.len() && stat_start_pos(#[trigger] stats[k]) == toks[n].start
            &&& forall|k1: int, k2: int|
                0 <= k1 <= k2 < stats.len() ==> crate::lex::pos_le(
                    stat_start_pos(#[trigger] stats[k1]),
                    stat_start_pos(#[trigger] stats[k2]),
                )
        }),
    decreases toks_rem(toks.len() as int, i),
{
    let stats = parse_body(toks, i).0;
    if i >= toks.len() {
    } else {
        let n = i + ws_run(toks, i);
        if n >= toks.len() {
        } else {
            let t = toks[n];
            match t.tok {
                TokM::Text(txt) => {
                    let rest = parse_body(toks, n + 1).0;
                    lemma_parse_body_starts_ordered(toks, n + 1);
                    assert(stats.len() == 1 + rest.len());
                    assert(stat_start_pos(stats[0]) == toks[n].start);
                    assert forall|k: int| 1 <= k < stats.len() implies stats[k] == rest[k
                        - 1] by {}
                    lemma_parse_body_shape(toks, i, n, rest, stats);
                },
                TokM::OpenTag => {
                    let e = parse_expression(toks, n + 1);
                    let j = if e.2 < n + 2 {
                        n + 2
                    } else {
                        e.2
                    };
                    let rest = parse_body(toks, j).0;
                    lemma_parse_body_starts_ordered(toks, j);
                    assert(stats.len() == 1 + rest.len());
                    assert(stat_start_pos(stats[0]) == toks[n].start);
                    assert forall|k: int| 1 <= k < stats.len() implies stats[k] == rest[k
                        - 1] by {}
                    lemma_parse_body_shape(toks, i, n, rest, stats);
                },
                _ => {
                    lemma_parse_body_starts_ordered(toks, n + 1);
                    let rest = parse_body(toks, n + 1).0;
                    assert(stats == rest);
                    assert forall|k: int| 0 <= k < stats.len() implies exists|m: int|
                        i <= m < toks.len() && stat_start_pos(#[trigger] stats[k])
                            == toks[m].start by {
                        let m = choose|m: int|
                            n + 1 <= m < toks.len() && stat_start_pos(rest[k]) == toks[m].start;
                        assert(i <= m < toks.len() && stat_start_pos(stats[k]) == toks[m].start);
                    }
                },
            }
        }
    }
}

/// The shared tail of the ordering induction: a head statement starting at
/// token `n`, followed by statements whose starts are later tokens' starts.
proof fn lemma_parse_body_shape(
    toks: Seq<TokenM>,
    i: int,
    n: int,
    rest: Seq<StatM>,
    stats: Seq<StatM>,
)
    requires
        0 <= i <= n < toks.len(),
        stats.len() == 1 + rest.len(),
        stat_start_pos(stats[0]) == toks[n].start,
        forall|k: int| 1 <= k < stats.len() ==> #[trigger] stats[k] == rest[k - 1],
        forall|a: int, b: int|
            0 <= a <= b < toks.len() ==> crate::lex::pos_le(
                (#[trigger] toks[a]).start,
                (#[trigger] toks[b]).start,
            ),
        forall|k: int|
            0 <= k < rest.len() ==> exists|m: int|
                n + 1 <= m < toks.len() && stat_start_pos(#[trigger] rest[k]) == toks[m].start,
        forall|k1: int, k2: int|
            0 <= k1 <= k2 < rest.len() ==> crate::lex::pos_le(
                stat_start_pos(#[trigger] rest[k1]),
                stat_start_pos(#[trigger] rest[k2]),
            ),
    ensures
        forall|k: int|
            0 <= k < stats.len() ==> exists|m: int|
                i <= m < toks.len() && stat_start_pos(#[trigger] stats[k]) == toks[m].start,
        forall|k1: int, k2: int|
            0 <= k1 <= k2 < stats.len() ==> crate::lex::pos_le(
                stat_start_pos(#[trigger] stats[k1]),
                stat_start_pos(#[trigger] stats[k2]),
            ),
{
    assert forall|k: int| 0 <= k < stats.len() implies exists|m: int|
        i <= m < toks.len() && stat_start_pos(#[trigger] stats[k]) == toks[m].start by {
        if k == 0 {
            assert(i <= n < toks.len() && stat_start_pos(stats[0]) == toks[n].start);
        } else {
            assert(stats[k] == rest[k - 1]);
            let m = choose|m: int|
                n + 1 <= m < toks.len() && stat_start_pos(rest[k - 1]) == toks[m].start;
            assert(i <= m < toks.len() && stat_start_pos(stats[k]) == toks[m].start);
        }
    }
    assert forall|k1: int, k2: int| 0 <= k1 <= k2 < stats.len() implies crate::lex::pos_le(
        stat_start_pos(#[trigger] stats[k1]),
        stat_start_pos(#[trigger] stats[k2]),
    ) by {
        if k1 == 0 {
            if k2 == 0 {
            } else {
                assert(stats[k2] == rest[k2 - 1]);
                let m = choose|m: int|
                    n + 1 <= m < toks.len() && stat_start_pos(rest[k2 - 1]) == toks[m].start;
                assert(crate::lex::pos_le(toks[n].start, toks[m].start));
            }
        } else {
            assert(stats[k1] == rest[k1 - 1]);
            assert(stats[k2] == rest[k2 - 1]);
            assert(crate::lex::pos_le(
                stat_start_pos(rest[k1 - 1]),
                stat_start_pos(rest[k2 - 1]),
            ));
        }
    }
}

} // verus!
