use crate::document::{offset_at_spec, Document};
use crate::lex::{lex_err_msg, pos_at, scan_spec, Lexer, PPosition, PosM};
use crate::parser::{parse_spec, stats_of, PErrM, Parser, ParserResults, StatM};
use crate::parser_get_node_at::{
    get_node_at_offset, node_at_spec, stats_offsets_wf, Node, NodeM,
};
use crate::runtime::str_eq;
use vstd::prelude::*;
use vstd::string::StrSliceExecFns;

verus! {

// ---------------------------------------------------------------------------
// Editor-protocol data, as this library models it
// ---------------------------------------------------------------------------

/// A zero-based line/character position as editors speak it.
#[derive(Debug, Clone, Copy, PartialEq)]
pub struct Position {
    pub line: u32,
    pub character: u32,
}

impl View for Position {
    type V = PosM;

    open spec fn view(&self) -> PosM {
        PosM { row: self.line as int, col: self.character as int }
    }
}

#[derive(Debug, Clone, Copy, PartialEq)]
pub struct Range {
    pub start: Position,
    pub end: Position,
}

#[derive(Debug, Clone, Copy, PartialEq)]
pub enum DiagnosticSeverity {
    Error,
}

/// A finding to underline in an editor: a range, a severity and a message.
#[derive(Debug, Clone)]
pub struct Diagnostic {
    pub range: Range,
    pub severity: DiagnosticSeverity,
    pub message: String,
}

#[derive(Debug, Clone, Copy, PartialEq)]
pub enum CompletionItemKind {
    Text,
}

/// One completion a client can offer.
#[derive(Debug, Clone)]
pub struct CompletionItem {
    pub label: String,
    pub kind: CompletionItemKind,
}

/// The completions for one request.
#[derive(Debug, Clone)]
pub struct CompletionList {
    pub is_incomplete: bool,
    pub items: Vec<CompletionItem>,
}

/// A diagnostic carries exactly a parse finding: same message, the finding's
/// row and column as line and character (truncated to 32 bits), and the
/// error severity.
pub open spec fn diag_matches_err(d: Diagnostic, e: PErrM) -> bool {
    &&& d.message@ == e.msg
    &&& d.severity is Error
    &&& d.range.start.line == e.start.row as u32
    &&& d.range.start.character == e.start.col as u32
    &&& d.range.end.line == e.end.row as u32
    &&& d.range.end.character == e.end.col as u32
}

pub open spec fn labels_of_items(items: Seq<CompletionItem>) -> Seq<Seq<char>> {
    items.map_values(|it: CompletionItem| it.label@)
}

// ---------------------------------------------------------------------------
// The schema
// ---------------------------------------------------------------------------

/// One field of a structure: its name and its type descriptors.
#[derive(Clone, Debug)]
pub struct StructuresMidd(pub String, pub Vec<String>);

/// One global name and its type reference; a reference opening on `#` names
/// a structure.
#[derive(Clone, Debug)]
pub struct SGlobal(pub String, pub String);

/// The host-supplied description of what names exist: a flat global list and
/// a structure table. Used only for autocompletion.
#[derive(Clone, Debug)]
pub struct SchemaService {
    pub v: String,
    pub global: Vec<SGlobal>,
    pub structures: Vec<(String, Vec<StructuresMidd>)>,
}

/// The first global entry under `key`, as the lookup walks the list front to
/// back.
pub open spec fn globals_lookup(globals: Seq<SGlobal>, key: Seq<char>) -> Option<Seq<char>>
    decreases globals.len(),
{
    if globals.len() == 0 {
        None
    } else if globals.first().0@ == key {
        Some(globals.first().1@)
    } else {
        globals_lookup(globals.drop_first(), key)
    }
}

/// The last structure entry under `key`: a re-registered structure shadows
/// an earlier one.
pub open spec fn structs_lookup(
    structures: Seq<(String, Vec<StructuresMidd>)>,
    key: Seq<char>,
) -> Option<Seq<StructuresMidd>>
    decreases structures.len(),
{
    if structures.len() == 0 {
        None
    } else if structures.last().0@ == key {
        Some(structures.last().1@)
    } else {
        structs_lookup(structures.drop_last(), key)
    }
}

pub open spec fn labels_of_globals(globals: Seq<SGlobal>) -> Seq<Seq<char>> {
    globals.map_values(|g: SGlobal| g.0@)
}

pub open spec fn labels_of_fields(fields: Seq<StructuresMidd>) -> Seq<Seq<char>> {
    fields.map_values(|f: StructuresMidd| f.0@)
}

// ---------------------------------------------------------------------------
// The autocompletion model
// ---------------------------------------------------------------------------

/// The index of the property segment the cursor rests in: segments and their
/// separating dots are walked left to right until the remaining columns run
/// out.
pub open spec fn cursor_seg_index(segs: Seq<Seq<char>>, rel: int, j: int) -> int
    decreases segs.len() - j,
{
    if j < 0 || j >= segs.len() {
        j
    } else if rel < segs[j].len() + 1 {
        j
    } else {
        cursor_seg_index(segs, rel - (segs[j].len() + 1), j + 1)
    }
}

/// The completion labels for a cursor position: global names in an empty tag
/// or on a property's first segment; the fields of the `#`-referenced
/// structure one level deep; nothing anywhere else (deeper nesting is a known
/// gap and stays empty).
pub open spec fn autocomplete_spec(
    text: Seq<char>,
    stats: Seq<StatM>,
    pos: PosM,
    schema: Option<SchemaService>,
) -> Seq<Seq<char>> {
    let off = offset_at_spec(text, pos);
    match node_at_spec(text, stats, off) {
        None => Seq::empty(),
        Some(NodeM::Text) => Seq::empty(),
        Some(NodeM::Expression) => match schema {
            None => Seq::empty(),
            Some(sc) => labels_of_globals(sc.global@),
        },
        Some(NodeM::Property(p)) => match schema {
            None => Seq::empty(),
            Some(sc) => {
                let rel = pos.col - p.start.col;
                let k = cursor_seg_index(p.segs, rel, 0);
                if k == 0 {
                    labels_of_globals(sc.global@)
                } else if k == 1 {
                    match globals_lookup(sc.global@, p.segs[0]) {
                        Some(tyref) => if tyref.len() > 0 && tyref[0] == '#' {
                            match structs_lookup(sc.structures@, tyref.subrange(
                                1,
                                tyref.len() as int,
                            )) {
                                Some(fields) => labels_of_fields(fields),
                                None => Seq::empty(),
                            }
                        } else {
                            Seq::empty()
                        },
                        None => Seq::empty(),
                    }
                } else {
                    Seq::empty()
                }
            },
        },
    }
}

// ---------------------------------------------------------------------------
// Diagnostics
// ---------------------------------------------------------------------------

/// What a diagnostics pass promises: one error-severity entry on a scan
/// failure, anchored at the position the scan stopped at and one column
/// wide; otherwise exactly the parse findings, each with its own span.
pub open spec fn diagnostics_spec_holds(s: Seq<char>, pre: Seq<Diagnostic>, post: Seq<Diagnostic>) -> bool {
    match scan_spec(s) {
        Err(e) => {
            let p = pos_at(s, e.at);
            &&& post.len() == pre.len() + 1
            &&& forall|i: int| 0 <= i < pre.len() ==> post[i] == pre[i]
            &&& post.last().severity is Error
            &&& post.last().message@ == lex_err_msg(e)
            &&& post.last().range.start.line == p.row as u32
            &&& post.last().range.start.character == p.col as u32
            &&& post.last().range.end.line == p.row as u32
            &&& post.last().range.end.character == (if p.col as u32 == u32::MAX {
                u32::MAX
            } else {
                (p.col as u32 + 1) as u32
            })
        },
        Ok(ts) => {
            let errs = parse_spec(ts).1;
            &&& post.len() == pre.len() + errs.len()
            &&& forall|i: int|
                0 <= i < errs.len() ==> diag_matches_err(#[trigger] post[pre.len() + i], errs[i])
            &&& forall|i: int| 0 <= i < pre.len() ==> post[i] == pre[i]
        },
    }
}

/// The whole-run service: diagnostics and autocompletion over a document.
pub struct Service {}

impl Service {
    /// Scan and parse `source`, appending one diagnostic per finding; the
    /// parse results come back unless the scan failed.
    fn diagnostic_parser(source: String, diagnostics: &mut Vec<Diagnostic>) -> (r: Option<
        ParserResults,
    >)
        ensures
            diagnostics_spec_holds(source@, old(diagnostics)@, final(diagnostics)@),
            ({
                match scan_spec(source@) {
                    Err(_) => r is None,
                    Ok(ts) => r matches Some(pr) && stats_of(pr.ast.body@) == parse_spec(ts).0,
                }
            }),
    {
        let mut lexr = Lexer::from_source(source.as_str());
        match lexr.scan_tokens() {
            Err(err_msg) => {
                let cl = lexr.position.line;
                let c = #[verifier::truncate] (cl as u32);
                let c2 = if c == u32::MAX {
                    c
                } else {
                    c + 1
                };
                let l = #[verifier::truncate] (lexr.position.column as u32);
                let d = Diagnostic {
                    range: Range {
                        start: Position { line: l, character: c },
                        end: Position { line: l, character: c2 },
                    },
                    severity: DiagnosticSeverity::Error,
                    message: err_msg,
                };
                diagnostics.push(d);
                return None;
            },
            Ok(()) => {},
        }
        let mut parser = Parser::from_lexer(lexr);
        proof {
            assert(parser.toks() =~= scan_spec(source@)->Ok_0);
        }
        let parse_results = parser.parse();
        let ghost errs = parse_spec(scan_spec(source@)->Ok_0).1;
        let ghost pre = diagnostics@;
        let n = parse_results.errors.len();
        let mut k: usize = 0;
        proof {
            assert(errs.len() == parse_results.errors@.len());
        }
        loop
            invariant
                k <= n,
                n == parse_results.errors@.len(),
                errs.len() == n,
                errs == crate::parser::errs_of(parse_results.errors@),
                diagnostics@.len() == pre.len() + k,
                forall|i: int| 0 <= i < pre.len() ==> #[trigger] diagnostics@[i] == pre[i],
                forall|i: int|
                    0 <= i < k ==> diag_matches_err(
                        #[trigger] diagnostics@[pre.len() + i],
                        errs[i],
                    ),
            ensures
                k == n,
                diagnostics@.len() == pre.len() + n,
                forall|i: int| 0 <= i < pre.len() ==> #[trigger] diagnostics@[i] == pre[i],
                forall|i: int|
                    0 <= i < n ==> diag_matches_err(#[trigger] diagnostics@[pre.len() + i], errs[i]),
            decreases n - k,
        {
            if k >= n {
                break;
            }
            proof {
                assert(errs[k as int] == parse_results.errors@[k as int]@);
            }
            let err = &parse_results.errors[k];
            let d = Diagnostic {
                range: Range {
                    start: Position {
                        line: #[verifier::truncate] (err.start.column as u32),
                        character: #[verifier::truncate] (err.start.line as u32),
                    },
                    end: Position {
                        line: #[verifier::truncate] (err.end.column as u32),
                        character: #[verifier::truncate] (err.end.line as u32),
                    },
                },
                severity: DiagnosticSeverity::Error,
                message: err.message.clone(),
            };
            diagnostics.push(d);
            k = k + 1;
        }
        Some(parse_results)
    }

    /// The diagnostics of a document's text.
    pub fn do_diagnostic(document: Document, _schema: Option<SchemaService>) -> (r: Vec<
        Diagnostic,
    >)
        ensures
            diagnostics_spec_holds(document.text(), Seq::empty(), r@),
    {
        let source = document.get_text();
        let mut diagnostics: Vec<Diagnostic> = Vec::new();
        let ast_r = Service::diagnostic_parser(source, &mut diagnostics);
        if ast_r.is_none() {
            return diagnostics;
        }
        diagnostics
    }

    fn _diagnostic_types() {
    }
}

/// The diagnostics of raw source text.
pub fn diagnostic(source: String) -> (r: Vec<Diagnostic>)
    ensures
        diagnostics_spec_holds(source@, Seq::empty(), r@),
{
    let mut diagnostics: Vec<Diagnostic> = Vec::new();
    Service::diagnostic_parser(source, &mut diagnostics);
    diagnostics
}

// ---------------------------------------------------------------------------
// Autocompletion
// ---------------------------------------------------------------------------

fn empty_completions() -> (r: CompletionList)
    ensures
        r.is_incomplete == false,
        r.items@.len() == 0,
        labels_of_items(r.items@) == Seq::<Seq<char>>::empty(),
{
    let r = CompletionList { is_incomplete: false, items: Vec::new() };
    proof {
        assert(labels_of_items(r.items@) =~= Seq::<Seq<char>>::empty());
    }
    r
}

/// The first global entry under `key`.
fn globals_find<'a>(globals: &'a Vec<SGlobal>, key: &str) -> (r: Option<&'a String>)
    ensures
        match (r, globals_lookup(globals@, key@)) {
            (Some(v), Some(s)) => v@ == s,
            (None, None) => true,
            _ => false,
        },
{
    let n = globals.len();
    let mut i: usize = 0;
    proof {
        assert(globals@.skip(0) =~= globals@);
    }
    loop
        invariant
            i <= n,
            n == globals@.len(),
            globals_lookup(globals@, key@) == globals_lookup(globals@.skip(i as int), key@),
        ensures
            i <= n,
            globals_lookup(globals@, key@) == globals_lookup(globals@.skip(i as int), key@),
            i < n ==> globals@[i as int].0@ == key@ && globals_lookup(globals@, key@) == Some(
                globals@[i as int].1@,
            ),
            i >= n ==> globals_lookup(globals@, key@) is None,
        decreases n - i,
    {
        if i >= n {
            proof {
                assert(globals@.skip(i as int) =~= Seq::<SGlobal>::empty());
            }
            break;
        }
        proof {
            assert(globals@.skip(i as int).first() == globals@[i as int]);
            assert(globals@.skip(i as int).drop_first() =~= globals@.skip(i as int + 1));
        }
        if str_eq(globals[i].0.as_str(), key) {
            break;
        }
        i = i + 1;
    }
    if i < n {
        Some(&globals[i].1)
    } else {
        None
    }
}

/// The last structure entry under `key`.
fn structs_find<'a>(structures: &'a Vec<(String, Vec<StructuresMidd>)>, key: &str) -> (r: Option<
    &'a Vec<StructuresMidd>,
>)
    ensures
        match (r, structs_lookup(structures@, key@)) {
            (Some(v), Some(s)) => v@ == s,
            (None, None) => true,
            _ => false,
        },
{
    let mut i = structures.len();
    proof {
        assert(structures@.take(structures@.len() as int) =~= structures@);
    }
    loop
        invariant
            i <= structures@.len(),
            structs_lookup(structures@, key@) == structs_lookup(structures@.take(i as int), key@),
        ensures
            i <= structures@.len(),
            i > 0 ==> structures@[i - 1].0@ == key@ && structs_lookup(structures@, key@) == Some(
                structures@[i - 1].1@,
            ),
            i == 0 ==> structs_lookup(structures@, key@) is None,
        decreases i,
    {
        if i == 0 {
            proof {
                assert(structures@.take(0) =~= Seq::<(String, Vec<StructuresMidd>)>::empty());
            }
            break;
        }
        proof {
            assert(structures@.take(i as int).last() == structures@[i - 1]);
            assert(structures@.take(i as int).drop_last() =~= structures@.take(i - 1));
        }
        if str_eq(structures[i - 1].0.as_str(), key) {
            break;
        }
        i = i - 1;
    }
    if i > 0 {
        Some(&structures[i - 1].1)
    } else {
        None
    }
}

/// One completion per global name.
fn items_of_globals(globals: &Vec<SGlobal>) -> (r: Vec<CompletionItem>)
    ensures
        labels_of_items(r@) == labels_of_globals(globals@),
        forall|i: int| 0 <= i < r@.len() ==> (#[trigger] r@[i]).kind is Text,
{
    let mut items: Vec<CompletionItem> = Vec::new();
    let n = globals.len();
    let mut i: usize = 0;
    proof {
        assert(labels_of_items(items@) =~= labels_of_globals(globals@).take(0));
    }
    loop
        invariant
            i <= n,
            n == globals@.len(),
            labels_of_items(items@) == labels_of_globals(globals@).take(i as int),
            forall|j: int| 0 <= j < items@.len() ==> (#[trigger] items@[j]).kind is Text,
        ensures
            i == n,
            labels_of_items(items@) == labels_of_globals(globals@).take(i as int),
            forall|j: int| 0 <= j < items@.len() ==> (#[trigger] items@[j]).kind is Text,
        decreases n - i,
    {
        if i >= n {
            break;
        }
        let ghost items_pre = items@;
        items.push(
            CompletionItem { label: globals[i].0.clone(), kind: CompletionItemKind::Text },
        );
        proof {
            assert(labels_of_items(items@) =~= labels_of_items(items_pre).push(
                globals@[i as int].0@,
            ));
            assert(labels_of_globals(globals@).take(i as int).push(globals@[i as int].0@)
                =~= labels_of_globals(globals@).take(i as int + 1));
        }
        i = i + 1;
    }
    proof {
        assert(labels_of_globals(globals@).take(n as int) =~= labels_of_globals(globals@));
    }
    items
}

/// One completion per field of a structure.
fn items_of_fields(fields: &Vec<StructuresMidd>) -> (r: Vec<CompletionItem>)
    ensures
        labels_of_items(r@) == labels_of_fields(fields@),
        forall|i: int| 0 <= i < r@.len() ==> (#[trigger] r@[i]).kind is Text,
{
    let mut items: Vec<CompletionItem> = Vec::new();
    let n = fields.len();
    let mut i: usize = 0;
    proof {
        assert(labels_of_items(items@) =~= labels_of_fields(fields@).take(0));
    }
    loop
        invariant
            i <= n,
            n == fields@.len(),
            labels_of_items(items@) == labels_of_fields(fields@).take(i as int),
            forall|j: int| 0 <= j < items@.len() ==> (#[trigger] items@[j]).kind is Text,
        ensures
            i == n,
            labels_of_items(items@) == labels_of_fields(fields@).take(i as int),
            forall|j: int| 0 <= j < items@.len() ==> (#[trigger] items@[j]).kind is Text,
        decreases n - i,
    {
        if i >= n {
            break;
        }
        let ghost items_pre = items@;
        items.push(CompletionItem { label: fields[i].0.clone(), kind: CompletionItemKind::Text });
        proof {
            assert(labels_of_items(items@) =~= labels_of_items(items_pre).push(
                fields@[i as int].0@,
            ));
            assert(labels_of_fields(fields@).take(i as int).push(fields@[i as int].0@)
                =~= labels_of_fields(fields@).take(i as int + 1));
        }
        i = i + 1;
    }
    proof {
        assert(labels_of_fields(fields@).take(n as int) =~= labels_of_fields(fields@));
    }
    items
}

impl Service {
    /// Scan and parse, or nothing on a scan failure.
    fn parse_ast(source: &String) -> (r: Option<crate::parser::Source>)
        ensures
            match scan_spec(source@) {
                Err(_) => r is None,
                Ok(ts) => r matches Some(ast) && stats_of(ast.body@) == parse_spec(ts).0,
            },
    {
        let mut lexr = Lexer::from_source(source.as_str());
        match lexr.scan_tokens() {
            Err(_) => {
                return None;
            },
            Ok(()) => {},
        }
        let mut parser = Parser::from_lexer(lexr);
        proof {
            assert(parser.toks() =~= scan_spec(source@)->Ok_0);
        }
        let results = parser.parse();
        Some(results.ast)
    }

    /// The completions for a cursor position: driven by the node under the
    /// cursor and the host-supplied schema.
    pub fn do_autocomplete(document: Document, position: Position, schema: Option<
        SchemaService,
    >) -> (r: CompletionList)
        requires
            document.wf(),
        ensures
            r.is_incomplete == false,
            forall|i: int| 0 <= i < r.items@.len() ==> (#[trigger] r.items@[i]).kind is Text,
            ({
                let s = document.text();
                match scan_spec(s) {
                    Err(_) => labels_of_items(r.items@) == Seq::<Seq<char>>::empty(),
                    Ok(ts) => stats_offsets_wf(s, parse_spec(ts).0) ==> labels_of_items(r.items@)
                        == autocomplete_spec(s, parse_spec(ts).0, position@, schema),
                }
            }),
    {
        let ghost s = document.text();
        let source = document.get_text();
        let mut doc = document;
        let ast = match Service::parse_ast(&source) {
            None => {
                return empty_completions();
            },
            Some(ast) => ast,
        };
        let ghost stats = parse_spec(scan_spec(s)->Ok_0).0;
        let offset = doc.offset_at(
            PPosition { column: position.line as usize, line: position.character as usize },
        );
        let node_res = get_node_at_offset(&mut doc, offset, &ast);
        let ghost wf = stats_offsets_wf(s, stats);
        proof {
            if wf {
                assert(offset as int == offset_at_spec(s, position@));
            }
        }
        match node_res {
            None => empty_completions(),
            Some(Node::Text) => empty_completions(),
            Some(Node::Expression) => {
                match &schema {
                    Some(sc) => CompletionList {
                        is_incomplete: false,
                        items: items_of_globals(&sc.global),
                    },
                    None => empty_completions(),
                }
            },
            Some(Node::Property(property)) => {
                let sc = match &schema {
                    Some(sc) => sc,
                    None => {
                        return empty_completions();
                    },
                };
                let ghost segs = property@.segs;
                let ghost rel0: int = position.character - property.start.line;
                let mut rel: i128 = position.character as i128 - property.start.line as i128;
                let mut j: usize = 0;
                let n = property.value.len();
                loop
                    invariant
                        j <= n,
                        n == property.value@.len(),
                        segs == property@.segs,
                        segs.len() == n,
                        rel0 == position.character - property.start.line,
                        cursor_seg_index(segs, rel0, 0) == cursor_seg_index(
                            segs,
                            rel as int,
                            j as int,
                        ),
                        j > 0 ==> rel >= 0,
                    ensures
                        j <= n,
                        cursor_seg_index(segs, rel0, 0) == j as int,
                    decreases n - j,
                {
                    if j >= n {
                        break;
                    }
                    proof {
                        assert(segs[j as int] == property.value@[j as int]@);
                    }
                    let w = property.value[j].as_str().unicode_len() as i128 + 1;
                    if rel < w {
                        break;
                    }
                    rel = rel - w;
                    j = j + 1;
                }
                let k = j;
                if k == 0 {
                    CompletionList { is_incomplete: false, items: items_of_globals(&sc.global) }
                } else if k == 1 {
                    let seg0 = &property.value[0];
                    proof {
                        assert(segs[0] == property.value@[0]@);
                    }
                    let tyref = match globals_find(&sc.global, seg0.as_str()) {
                        Some(v) => v,
                        None => {
                            return empty_completions();
                        },
                    };
                    let tlen = tyref.as_str().unicode_len();
                    if tlen > 0 && tyref.as_str().get_char(0) == '#' {
                        let name = tyref.as_str().substring_char(1, tlen);
                        match structs_find(&sc.structures, name) {
                            Some(fields) => CompletionList {
                                is_incomplete: false,
                                items: items_of_fields(fields),
                            },
                            None => empty_completions(),
                        }
                    } else {
                        empty_completions()
                    }
                } else {
                    empty_completions()
                }
            },
        }
    }
}

} // verus!
