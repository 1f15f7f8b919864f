use jtl::lex::Lexer;
use jtl::parser::{Arg, PValue, Parser, ParserResults, Stat};

fn parse_base(program: &str) -> Result<ParserResults, String> {
    let mut lex = Lexer::from_source(program);
    lex.scan_tokens()?;
    let mut parser = Parser::from_lexer(lex);
    Ok(parser.parse())
}

#[test]
fn tag_property_only() {
    assert!(parse_base("h{ guild }").unwrap().errors.len() == 0);
    assert!(parse_base("h{ guild . name }").unwrap().errors.len() == 0);
}

#[test]
fn tag_property_errs() {
    assert!(parse_base("h{guild.}").unwrap().errors.len() > 0);
    assert!(parse_base("h{guild..}").unwrap().errors.len() > 0);
    assert!(parse_base("h{guild").unwrap().errors.len() > 0);

    assert!(parse_base("h{ {guild").unwrap().errors.len() > 0);
}

#[test]
fn tag_arguments_single() {
    let res = parse_base("test \n {g}").unwrap();
    assert_eq!(res.errors.len(), 0);
    assert_eq!(res.ast.body.len(), 2);
}

// A trailing dot is reported, and the tree still holds the tag.
#[test]
fn trailing_dot_keeps_tag() {
    let res = parse_base("h{guild.}").unwrap();
    assert!(res.errors.len() > 0);
    let has_tag = res.ast.body.iter().any(|s| matches!(s, Stat::Tag { .. }));
    assert!(has_tag);
}

// An unterminated tag is reported at the end of the last token, and the tree
// still holds the leading text plus a best-effort tag.
#[test]
fn unterminated_tag_span() {
    let res = parse_base("h{guild").unwrap();
    assert!(res.errors.len() > 0);
    // the last token is Ident("guild"), spanning columns 2..7 of row 0
    let at_last_end = res
        .errors
        .iter()
        .any(|e| e.start.column == 0 && e.start.line == 7);
    assert!(at_last_end);
    assert_eq!(res.ast.body.len(), 2);
    assert!(matches!(&res.ast.body[0], Stat::Text { value, .. } if value == "h"));
    // the collected segment survives the end of input
    let Stat::Tag { value, .. } = &res.ast.body[1] else {
        panic!("expected a tag");
    };
    assert!(
        matches!(&value.property, Some(PValue::Property(p)) if p.value == vec!["guild".to_string()])
    );
}

// Property segment order is preserved exactly as written.
#[test]
fn segment_order_preserved() {
    let res = parse_base("{a.b.c}").unwrap();
    assert_eq!(res.errors.len(), 0);
    let Stat::Tag { value, .. } = &res.ast.body[0] else {
        panic!("expected a tag");
    };
    let Some(PValue::Property(p)) = &value.property else {
        panic!("expected a property");
    };
    assert_eq!(p.value, vec!["a".to_string(), "b".to_string(), "c".to_string()]);
}

#[test]
fn arguments_parsed() {
    let res = parse_base("{t|\"x\";2;guild.count}").unwrap();
    assert_eq!(res.errors.len(), 0);
    let Stat::Tag { value, .. } = &res.ast.body[0] else {
        panic!("expected a tag");
    };
    let args = value.arguments.as_ref().unwrap();
    assert_eq!(args.len(), 3);
    let Arg::Single(a0) = &args[0];
    assert!(matches!(&a0.value, PValue::String { value, .. } if value == "x"));
    let Arg::Single(a1) = &args[1];
    assert!(matches!(&a1.value, PValue::Int { value, .. } if *value == 2));
    let Arg::Single(a2) = &args[2];
    assert!(
        matches!(&a2.value, PValue::Property(p) if p.value == vec!["guild".to_string(), "count".to_string()])
    );
}

// A missing `;` between arguments is reported but the argument is kept.
#[test]
fn missing_separator_reported() {
    let res = parse_base("{t|\"x\" \"y\"}").unwrap();
    assert!(res.errors.iter().any(|e| e.message == "Expected ';'"));
    let Stat::Tag { value, .. } = &res.ast.body[0] else {
        panic!("expected a tag");
    };
    assert_eq!(value.arguments.as_ref().unwrap().len(), 2);
}

#[test]
fn doubled_dot_reported() {
    let res = parse_base("h{guild..}").unwrap();
    assert!(res.errors.iter().any(|e| e.message == "Unexpected '.'"));
}

#[test]
fn string_in_property_reported() {
    let res = parse_base("{guild.\"x\"}").unwrap();
    assert!(res.errors.iter().any(|e| e.message == "Unexpected String"));
}

// Statements appear in strictly non-decreasing start order: the structural
// invariant the node lookup's binary search rests on.
#[test]
fn statements_sorted_by_start() {
    let res = parse_base("a{x}b{y}c\nd{z}").unwrap();
    let starts: Vec<(usize, usize)> = res
        .ast
        .body
        .iter()
        .map(|s| match s {
            Stat::Text { start, .. } => (start.column, start.line),
            Stat::Tag { start, .. } => (start.column, start.line),
        })
        .collect();
    for w in starts.windows(2) {
        assert!(w[0] <= w[1]);
    }
    assert!(starts.len() >= 5);
}

// Pathological inputs must never make the parser fail structurally.
#[test]
fn empty_tag_recovers() {
    let res = parse_base("{}").unwrap();
    assert!(res.errors.len() > 0);
    assert_eq!(res.ast.body.len(), 1);
    assert!(matches!(&res.ast.body[0], Stat::Tag { .. }));
}

#[test]
fn lone_open_brace_recovers() {
    let res = parse_base("{").unwrap();
    assert!(res.errors.len() > 0);
    assert_eq!(res.ast.body.len(), 1);
}

#[test]
fn trailing_close_brace_is_skipped() {
    let res = parse_base("{g} }").unwrap();
    assert_eq!(res.errors.len(), 0);
    assert_eq!(res.ast.body.len(), 1);
}

#[test]
fn whitespace_only_source_is_empty() {
    let res = parse_base("  \n ").unwrap();
    assert_eq!(res.errors.len(), 0);
    assert_eq!(res.ast.body.len(), 0);
}

#[test]
fn empty_source_is_empty() {
    let res = parse_base("").unwrap();
    assert_eq!(res.errors.len(), 0);
    assert_eq!(res.ast.body.len(), 0);
}

#[test]
fn nested_open_brace_recovers() {
    let res = parse_base("{ t { } }").unwrap();
    assert!(res.errors.len() > 0);
}
