use mojom_lsp::diagnostic::{
    create_diagnostic, find_definition_in_imported_files, into_lsp_range, Diagnostic,
};
use mojom_lsp::document_symbol::DocumentSymbol;
use mojom_lsp::grammar::Rule;
use mojom_lsp::lsp::{DiagnosticSeverity, Position, Range};
use mojom_lsp::parser::MojomParser;
use mojom_lsp::syntax::{find_token_end_position, line_col, parse, LineCol};
use mojom_lsp::workspace::{parse_mojom_symbols, ParsedSymbols};

const URI: &str = "file:///a.mojom";
const TEXT: &str = "interface Foo { Call(Bar b); };\nenum Bar {};\n";

fn position(line: u32, character: u32) -> Position {
    Position { line, character }
}

fn range(start: (u32, u32), end: (u32, u32)) -> Range {
    Range {
        start: position(start.0, start.1),
        end: position(end.0, end.1),
    }
}

fn symbols(text: &str) -> ParsedSymbols {
    parse_mojom_symbols(text.to_string()).unwrap()
}

fn file(uri: &str, text: Option<&str>) -> (String, Option<ParsedSymbols>) {
    (uri.to_string(), text.map(symbols))
}

fn opened(clangd: bool) -> Diagnostic {
    let mut diag = Diagnostic::new(clangd);
    let shown = diag.check_syntax(URI.to_string(), TEXT.to_string());
    assert_eq!(shown.uri, URI);
    assert_eq!(shown.version, None);
    assert!(shown.diagnostics.is_empty());
    diag
}

#[test]
fn keeps_the_current_document() {
    let mut diag = opened(false);
    assert!(diag.is_same_uri(URI));
    assert!(!diag.is_same_uri("file:///b.mojom"));
    diag.check_imported_files(vec![
        file("file:///x", Some("enum A {};")),
        file("file:///y", None),
        file("file:///z", Some("")),
    ]);
    let uris: Vec<&str> = diag
        .imported_files
        .iter()
        .flatten()
        .map(|(uri, _)| uri.as_str())
        .collect();
    assert_eq!(uris, vec!["file:///x", "file:///z"]);
    diag.did_close_text_document("file:///b.mojom");
    assert!(diag.ast.is_some());
    diag.did_close_text_document(URI);
    assert!(diag.ast.is_none() && diag.imported_files.is_none());
    assert!(!diag.is_same_uri(URI));
    diag.check_imported_files(vec![file("file:///x", Some("enum A {};"))]);
    assert!(diag.imported_files.is_none());
}

#[test]
fn a_syntax_error_drops_the_document() {
    let mut diag = opened(false);
    let shown = diag.check_syntax(URI.to_string(), "enum Bar\n  x;".to_string());
    assert!(diag.ast.is_none());
    assert_eq!(shown.diagnostics.len(), 1);
    assert_eq!(shown.diagnostics[0].range, range((1, 2), (1, 4)));
    assert_eq!(shown.diagnostics[0].source, Some("mojom-lsp".to_string()));
    assert!(diag.find_definition(&position(0, 0)).is_none());
    assert!(diag.find_symbol(&position(0, 0)).is_none());
}

#[test]
fn a_second_module_statement_is_a_semantic_error() {
    let mut diag = Diagnostic::new(false);
    let shown = diag.check_syntax(URI.to_string(), "module a;\nmodule b;".to_string());
    assert!(diag.ast.is_some());
    assert_eq!(shown.diagnostics.len(), 1);
    assert_eq!(
        shown.diagnostics[0],
        create_diagnostic(
            range((1, 0), (1, 9)),
            "Found more than one module statement: b".to_string()
        )
    );
}

#[test]
fn an_imported_definition_counts_where_the_document_has_none() {
    let mut diag = opened(false);
    assert_eq!(diag.find_definition(&position(0, 25)), None);
    diag.check_imported_files(vec![
        file("file:///none.mojom", None),
        file("file:///b.mojom", Some("enum Bar {}; enum Other {};")),
        file("file:///c.mojom", Some("\nenum b {};")),
        file("file:///d.mojom", Some("enum b {};")),
    ]);
    let found = diag.find_definition(&position(0, 22)).unwrap();
    assert_eq!((found.uri.as_str(), found.range), (URI, range((1, 5), (1, 8))));
    let found = diag.find_definition(&position(0, 25)).unwrap();
    assert_eq!(
        (found.uri.as_str(), found.range),
        ("file:///c.mojom", range((1, 0), (1, 10)))
    );
    assert_eq!(diag.find_definition(&position(0, 11)).unwrap().uri, URI);
    assert_eq!(diag.find_definition(&position(0, 3)), None);
}

#[test]
fn the_first_file_that_defines_a_name_counts() {
    let files = vec![
        ("file:///x".to_string(), symbols("module m; enum A {};")),
        ("file:///y".to_string(), symbols("enum A {}; enum B {};")),
    ];
    let at = |ident: &str| find_definition_in_imported_files(&files, ident).map(|l| l.uri);
    assert_eq!(at("A"), Some("file:///x".to_string()));
    assert_eq!(at("m.A"), Some("file:///x".to_string()));
    assert_eq!(at("B"), Some("file:///y".to_string()));
    assert_eq!(at("C"), None);
    assert_eq!(find_definition_in_imported_files(&Vec::new(), "A"), None);
}

#[test]
fn clangd_is_asked_about_symbols() {
    let diag = opened(true);
    match diag.goto_implementation(&position(0, 11)) {
        Some(DocumentSymbol::Interface(symbol)) => assert_eq!(symbol.name, "Foo"),
        other => panic!("{:?}", other),
    }
    match diag.find_references(&position(0, 11)) {
        Some(DocumentSymbol::Interface(symbol)) => assert_eq!(symbol.name, "FooProxy"),
        other => panic!("{:?}", other),
    }
    match diag.find_references(&position(0, 17)) {
        Some(DocumentSymbol::Method(symbol)) => {
            assert_eq!((symbol.name.as_str(), symbol.interface_name.as_str()), ("Call", "FooProxy"))
        }
        other => panic!("{:?}", other),
    }
    assert!(diag.goto_implementation(&position(1, 6)).is_none());
    let diag = opened(false);
    assert!(diag.find_symbol(&position(0, 11)).is_some());
    assert!(diag.goto_implementation(&position(0, 11)).is_none());
    assert!(diag.find_references(&position(0, 11)).is_none());
}

#[test]
fn lines_and_columns_are_counted_from_zero() {
    let text = "a\u{e4}\n\r\nb";
    let at = |offset: usize| line_col(text, offset).map(|at| (at.line, at.col));
    assert_eq!(at(0), Some((0, 0)));
    assert_eq!(at(1), Some((0, 1)));
    assert_eq!(at(2), None);
    assert_eq!(at(3), Some((0, 2)));
    assert_eq!(at(4), Some((1, 0)));
    assert_eq!(at(6), Some((2, 0)));
    assert_eq!(at(7), Some((2, 1)));
    assert_eq!(at(8), None);
    let start = LineCol { line: 1, col: 2 };
    let end = LineCol { line: 3, col: 4 };
    assert_eq!(into_lsp_range(&start, &end), range((1, 2), (3, 4)));
}

#[test]
fn a_token_ends_at_white_space() {
    assert_eq!(find_token_end_position("ab cd", 0), 2);
    assert_eq!(find_token_end_position("ab cd", 3), 5);
    assert_eq!(find_token_end_position("ab\r\n", 1), 2);
    assert_eq!(find_token_end_position("ab\n", 0), 2);
    assert_eq!(find_token_end_position("ab\t;", 0), 4);
    assert_eq!(find_token_end_position(" ab", 0), 0);
    // A token ends behind its last byte.
    assert_eq!(find_token_end_position("\u{65e5}\u{672c} x", 0), 6);
    assert_eq!(find_token_end_position("\u{65e5}\u{672c}", 3), 6);
}

#[test]
fn a_syntax_error_names_what_was_expected() {
    let err = parse("module ;").unwrap_err();
    assert_eq!(err.err.at, 7);
    let (start, end) = err.range();
    assert_eq!((start.line, start.col, end.line, end.col), (0, 7, 0, 8));
    assert_eq!(err.lsp_range(), range((0, 7), (0, 8)));
    let message = err.to_string();
    assert!(message.starts_with(" --> 1:8\n"));
    assert!(message.contains("1 | module ;"));
    assert!(message.contains("= expected identifier"));
    let diagnostic = err.lsp_diagnostic();
    assert_eq!(diagnostic.message, message);
    assert_eq!(diagnostic.severity, Some(DiagnosticSeverity::Error));
    assert_eq!(diagnostic.source, Some("mojom".to_string()));
}

#[test]
fn a_syntax_error_at_a_wide_token_has_a_range() {
    let err = parse("\u{65e5}\u{672c}").unwrap_err();
    let (start, end) = err.range();
    assert_eq!((start.line, start.col, end.line, end.col), (0, 0, 0, 2));
}

#[test]
fn a_listing_depends_on_what_was_tried_alone() {
    let a = MojomParser::parse(Rule::mojom_file, "struct S { int8 ").unwrap_err();
    let b = MojomParser::parse(Rule::mojom_file, "struct T { int8 ").unwrap_err();
    assert_eq!(a.expected, b.expected);
    assert!(!a.expected.is_empty());
}

#[test]
fn all_of_the_text_has_to_be_a_file() {
    assert!(parse("").is_ok());
    assert!(parse("enum E {}; ;").is_err());
    assert!(parse("module a;module b;").unwrap().stmts.len() == 2);
}

#[test]
fn a_file_may_have_many_statements() {
    let text = "enum E { kA, kB };\n".repeat(20000);
    let mojom = parse(&text).unwrap();
    assert_eq!(mojom.stmts.len(), 20000);
    let literal = format!("const string k = \"{}\";", "x".repeat(200000));
    assert_eq!(parse(&literal).unwrap().stmts.len(), 1);
}
