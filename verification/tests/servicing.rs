use jtl::document::Document;
use jtl::lex::{Lexer, PPosition};
use jtl::parser::Parser;
use jtl::parser_get_node_at::{get_node_at_offset, Node};
use jtl::service::{
    diagnostic, Position, SGlobal, SchemaService, Service, StructuresMidd,
};

fn text_document_prop(content: String) -> Document {
    Document::new("//master".to_string(), "jtl".to_string(), 1, content)
}

fn guild_schema() -> SchemaService {
    let mut structures = Vec::new();
    let mut guild_struct = Vec::new();
    guild_struct.push(StructuresMidd(
        "name".to_string(),
        vec!["String".to_string()],
    ));
    structures.push(("Guild".to_string(), guild_struct));
    SchemaService {
        v: "1.0.0".to_string(),
        global: vec![SGlobal("guild".to_string(), "#Guild".to_string())],
        structures,
    }
}

#[test]
fn diagnostic_test() {
    let schema = guild_schema();
    let source = "start
        {}"
    .to_string();
    let list = Service::do_autocomplete(
        text_document_prop(source.clone()),
        Position { line: 1, character: 9 },
        Some(schema),
    );
    assert!(!list.is_incomplete);
    let labels: Vec<&str> = list.items.iter().map(|it| it.label.as_str()).collect();
    assert_eq!(labels, vec!["guild"]);
}

#[test]
fn autocomplete_fields_one_level_deep() {
    let schema = guild_schema();
    let source = "sound{guild.n}".to_string();
    // cursor just past the dot, inside the second segment
    let list = Service::do_autocomplete(
        text_document_prop(source),
        Position { line: 0, character: 12 },
        Some(schema),
    );
    let labels: Vec<&str> = list.items.iter().map(|it| it.label.as_str()).collect();
    assert_eq!(labels, vec!["name"]);
}

#[test]
fn autocomplete_globals_in_first_segment() {
    let schema = guild_schema();
    let source = "sound{gui}".to_string();
    // cursor just inside the tag, on the property's first segment
    let list = Service::do_autocomplete(
        text_document_prop(source),
        Position { line: 0, character: 6 },
        Some(schema),
    );
    let labels: Vec<&str> = list.items.iter().map(|it| it.label.as_str()).collect();
    assert_eq!(labels, vec!["guild"]);
}

#[test]
fn autocomplete_without_schema_is_empty() {
    let source = "start{}".to_string();
    let list = Service::do_autocomplete(
        text_document_prop(source),
        Position { line: 0, character: 6 },
        None,
    );
    assert!(list.items.is_empty());
}

#[test]
fn diagnostics_of_malformed_source() {
    let ds = diagnostic("h{guild.}".to_string());
    assert!(ds.len() > 0);
    assert!(ds.iter().any(|d| d.message == "Expected Idnt"));
}

#[test]
fn diagnostics_of_clean_source() {
    let ds = diagnostic("hello {guild.name}".to_string());
    assert_eq!(ds.len(), 0);
}

#[test]
fn diagnostics_of_lex_failure() {
    let ds = diagnostic("{\"open".to_string());
    assert_eq!(ds.len(), 1);
    assert_eq!(ds[0].message, "Unterminated string");
}

#[test]
fn do_diagnostic_matches_parse_findings() {
    let doc = text_document_prop("h{guild..}".to_string());
    let ds = Service::do_diagnostic(doc, None);
    assert!(ds.iter().any(|d| d.message == "Unexpected '.'"));
}

// `offset_at` is monotone in the column and exact at line starts.
#[test]
fn offset_at_monotone_and_line_starts() {
    let mut doc = text_document_prop("ab\ncdef\r\ng".to_string());
    // line starts: 0, 3, 9
    assert_eq!(doc.offset_at(PPosition { column: 0, line: 0 }), 0);
    assert_eq!(doc.offset_at(PPosition { column: 1, line: 0 }), 3);
    assert_eq!(doc.offset_at(PPosition { column: 2, line: 0 }), 9);
    let mut prev = 0;
    for col in 0..8 {
        let off = doc.offset_at(PPosition { column: 1, line: col });
        assert!(off >= prev);
        prev = off;
    }
    // a column never spills into the next line's range
    assert_eq!(doc.offset_at(PPosition { column: 0, line: 99 }), 3);
    // a row past the last line clamps to the text's end
    assert_eq!(doc.offset_at(PPosition { column: 9, line: 0 }), 10);
}

// `node_at` finds nothing past the last statement's end, and finds the
// statement whose closing position the cursor sits on.
#[test]
fn node_at_boundaries() {
    let source = "ab{guild.name}".to_string();
    let mut doc = text_document_prop(source.clone());
    let mut lex = Lexer::from_source(&source);
    lex.scan_tokens().unwrap();
    let mut parser = Parser::from_lexer(lex);
    let ast = parser.parse().ast;

    // the text spans offsets 0..2, the tag its whole block 2..14, and the
    // property region within it closes at offset 13
    // strictly past the end of the last statement: nothing
    assert!(get_node_at_offset(&mut doc, 15, &ast).is_none());
    // exactly at the text statement's closing position: that statement
    assert!(matches!(get_node_at_offset(&mut doc, 2, &ast), Some(Node::Text)));
    // inside the tag, within the property region: the property
    assert!(matches!(
        get_node_at_offset(&mut doc, 3, &ast),
        Some(Node::Property(_))
    ));
    // exactly at the property region's closing position: still the property
    assert!(matches!(
        get_node_at_offset(&mut doc, 13, &ast),
        Some(Node::Property(_))
    ));
    // inside the tag but past the property region, in argument territory:
    // nothing, by design
    assert!(get_node_at_offset(&mut doc, 14, &ast).is_none());
    // before the first statement's start: nothing
    assert!(get_node_at_offset(&mut doc, 0, &ast).is_none());
}

#[test]
fn node_at_empty_tag_is_expression() {
    let source = "ab{}".to_string();
    let mut doc = text_document_prop(source.clone());
    let mut lex = Lexer::from_source(&source);
    lex.scan_tokens().unwrap();
    let mut parser = Parser::from_lexer(lex);
    let ast = parser.parse().ast;
    assert!(matches!(
        get_node_at_offset(&mut doc, 3, &ast),
        Some(Node::Expression)
    ));
}
