use mojom_lsp::document;
use mojom_lsp::document_symbol::{
    ConstSymbol, DocumentSymbol, EnumSymbol, InterfaceSymbol, MethodSymbol, StructSymbol,
    UnionSymbol,
};
use mojom_lsp::lsp::{DiagnosticSeverity, Position, Range, SymbolKind};
use mojom_lsp::mojomast::{or_generated, ImportResolution, MojomAst};
use mojom_lsp::syntax;

const MY_INTERFACE: &str = r#"// A comment.
module example.mojom;

interface MyInterface {
    const int32 kValue = 1;

    // Does something.
    DoSomething() => (bool ok);
};
"#;

const SAMPLE: &str = r#"module my.mod;
import "foo/bar.mojom";
import "baz.mojom";
struct MyStruct { const int8 kA = 1; enum Kind { kOne }; int32 field; };
union MyUnion { int8 a; };
enum MyEnum { kTwo };
const bool kFlag = true;
interface MyInterface { enum Inner {}; Call(int8 x); };
"#;

fn ast(text: &str) -> MojomAst {
    let mojom = syntax::parse(text).unwrap();
    MojomAst::from_mojom(text.to_string(), mojom)
}

fn position(line: u32, character: u32) -> Position {
    Position { line, character }
}

fn range(start: (u32, u32), end: (u32, u32)) -> Range {
    Range {
        start: position(start.0, start.1),
        end: position(end.0, end.1),
    }
}

#[test]
fn test_find_symbol_from_position() {
    let ast = ast(MY_INTERFACE);

    let expected = Some(DocumentSymbol::Interface(InterfaceSymbol {
        name: "MyInterface".to_string(),
        name_range: range((3, 10), (3, 21)),
        range: range((3, 0), (8, 2)),
    }));
    let symbol = ast.find_symbol_from_position(&Position {
        line: 3,
        character: 15,
    });
    assert_eq!(symbol, expected);

    let expected = Some(DocumentSymbol::Method(MethodSymbol {
        name: "DoSomething".to_string(),
        name_range: range((7, 4), (7, 15)),
        interface_name: "MyInterface".to_string(),
        range: range((7, 4), (7, 31)),
    }));
    let symbol = ast.find_symbol_from_position(&Position {
        line: 7,
        character: 4,
    });
    assert_eq!(symbol, expected);
    let symbol = ast.find_symbol_from_position(&Position {
        line: 7,
        character: 14,
    });
    assert_eq!(symbol, expected);

    let symbol = ast.find_symbol_from_position(&Position {
        line: 7,
        character: 15,
    });
    assert_eq!(symbol, None);
}

#[test]
fn lists_symbols_in_the_order_of_the_text() {
    let symbols = ast(SAMPLE).get_document_symbols();
    let names: Vec<&str> = symbols.iter().map(|s| s.name()).collect();
    assert_eq!(
        names,
        vec![
            "MyStruct",
            "kA",
            "Kind",
            "MyUnion",
            "MyEnum",
            "kFlag",
            "MyInterface",
            "Inner",
            "Call"
        ]
    );
    assert_eq!(
        symbols[0],
        DocumentSymbol::Struct(StructSymbol {
            name: "MyStruct".to_string(),
            name_range: range((3, 7), (3, 15)),
            range: range((3, 0), (3, 72)),
        })
    );
    assert_eq!(
        symbols[3],
        DocumentSymbol::Union(UnionSymbol {
            name: "MyUnion".to_string(),
            name_range: range((4, 6), (4, 13)),
            range: range((4, 0), (4, 26)),
        })
    );
    assert_eq!(
        symbols[4],
        DocumentSymbol::Enum(EnumSymbol {
            name: "MyEnum".to_string(),
            name_range: range((5, 5), (5, 11)),
            range: range((5, 0), (5, 21)),
        })
    );
    assert_eq!(
        symbols[5],
        DocumentSymbol::Const(ConstSymbol {
            name: "kFlag".to_string(),
            name_range: range((6, 11), (6, 16)),
            range: range((6, 0), (6, 24)),
        })
    );
    assert_eq!(
        symbols[8],
        DocumentSymbol::Method(MethodSymbol {
            name: "Call".to_string(),
            interface_name: "MyInterface".to_string(),
            name_range: range((7, 39), (7, 43)),
            range: range((7, 39), (7, 52)),
        })
    );
    let kinds: Vec<SymbolKind> = symbols.iter().map(|s| s.kind()).collect();
    assert_eq!(
        kinds,
        vec![
            SymbolKind::Struct,
            SymbolKind::Constant,
            SymbolKind::Enum,
            SymbolKind::Struct,
            SymbolKind::Enum,
            SymbolKind::Constant,
            SymbolKind::Interface,
            SymbolKind::Enum,
            SymbolKind::Method
        ]
    );
}

#[test]
fn a_found_symbol_is_listed() {
    let ast = ast(SAMPLE);
    let symbols = ast.get_document_symbols();
    for line in 0..9 {
        for character in 0..60 {
            if let Some(found) = ast.find_symbol_from_position(&position(line, character)) {
                assert!(symbols.contains(&found));
            }
        }
    }
    assert!(ast.find_symbol_from_position(&position(7, 40)).is_some());
}

#[test]
fn finds_definitions_by_their_dotted_names() {
    let ast = ast(SAMPLE);
    assert_eq!(ast.find_definition("MyStruct"), Some(range((3, 7), (3, 15))));
    assert_eq!(
        ast.find_definition("MyStruct.Kind"),
        Some(range((3, 42), (3, 46)))
    );
    assert_eq!(ast.find_definition("Kind"), None);
    assert_eq!(
        ast.find_definition("MyInterface.Inner"),
        Some(range((7, 29), (7, 34)))
    );
    // Methods and fields are not looked up.
    assert_eq!(ast.find_definition("MyInterface.Call"), None);
    assert_eq!(ast.find_definition("MyStruct.field"), None);
    assert_eq!(ast.find_definition("MyUnion"), Some(range((4, 6), (4, 13))));
    assert_eq!(ast.find_definition("kFlag"), Some(range((6, 11), (6, 16))));
    // What is found is the name of a listed symbol.
    let symbols = ast.get_document_symbols();
    for ident in ["MyStruct.kA", "MyEnum", "MyInterface"] {
        let found = ast.find_definition(ident).unwrap();
        assert!(symbols.iter().any(|s| *s.name_range() == found));
    }
}

#[test]
fn takes_the_identifier_around_a_position() {
    let ast = ast(SAMPLE);
    assert_eq!(ast.get_identifier(&position(0, 8)), "my.mod");
    assert_eq!(ast.get_identifier(&position(0, 7)), "my.mod");
    assert_eq!(ast.get_identifier(&position(0, 13)), "my.mod");
    assert_eq!(ast.get_identifier(&position(3, 16)), "");
    assert_eq!(ast.get_identifier(&position(3, 15)), "MyStruct");
    assert_eq!(ast.get_identifier(&position(3, 68)), "field");
    assert!(ast.is_on_text(&position(3, 15)));
}

#[test]
fn a_position_leads_back_to_its_byte() {
    let ast = ast(SAMPLE);
    for offset in 0..=SAMPLE.len() {
        let at = syntax::line_col(SAMPLE, offset).unwrap();
        let pos = position(at.line as u32, at.col as u32);
        assert_eq!(ast.get_offset_from_position(&pos), offset);
    }
}

#[test]
fn a_carriage_return_or_a_wide_character_leads_elsewhere() {
    // A line that ends with a carriage return is counted one byte short.
    let text = "module a;\r\nenum E {};";
    let at = syntax::line_col(text, 11).unwrap();
    assert_eq!((at.line, at.col), (1, 0));
    assert_eq!(ast(text).get_offset_from_position(&position(1, 0)), 10);
    // Columns are counted in characters, offsets in bytes.
    let text = "/* \u{e4} */ enum E {};";
    let at = syntax::line_col(text, 9).unwrap();
    assert_eq!((at.line, at.col), (0, 8));
    assert_eq!(ast(text).get_offset_from_position(&position(0, 8)), 8);
}

#[test]
fn a_position_inside_a_character_is_not_on_the_text() {
    let text = "/* \u{e4} */ enum E {};";
    let ast = ast(text);
    assert!(ast.is_on_text(&position(0, 3)));
    assert!(!ast.is_on_text(&position(0, 4)));
    assert!(ast.is_on_text(&position(0, 5)));
    assert!(!ast.is_on_text(&position(0, 500)));
    assert_eq!(ast.checked_offset(&position(0, 500)), Some(500));
}

#[test]
fn finds_the_import_at_a_position() {
    let ast = ast(SAMPLE);
    assert_eq!(ast.import_path_from_position(&position(1, 7)), Some("foo/bar.mojom"));
    assert_eq!(ast.import_path_from_position(&position(1, 21)), Some("foo/bar.mojom"));
    assert_eq!(ast.import_path_from_position(&position(1, 22)), None);
    assert_eq!(ast.import_path_from_position(&position(1, 3)), None);
    assert_eq!(ast.import_path_from_position(&position(2, 10)), Some("baz.mojom"));
    assert_eq!(ast.import_path_from_position(&position(4, 8)), None);
    assert_eq!(ast.import_paths(), vec!["foo/bar.mojom", "baz.mojom"]);
}

#[test]
fn checks_imports() {
    let ast = ast(SAMPLE);
    let result = ast.check_semantics(&vec![
        ImportResolution::Found("file:///r/foo/bar.mojom".to_string()),
        ImportResolution::Found("file:///r/baz.mojom".to_string()),
    ]);
    assert_eq!(result.module_name, Some("my.mod".to_string()));
    assert_eq!(
        result.import_uris,
        vec!["file:///r/foo/bar.mojom", "file:///r/baz.mojom"]
    );
    assert!(result.diagnostics.is_empty());
}

#[test]
fn complains_about_imports_that_lead_nowhere() {
    let ast = ast(SAMPLE);
    let result = ast.check_semantics(&vec![
        ImportResolution::NotFound("NotFound".to_string()),
        ImportResolution::Missing("\"/r/baz.mojom\"".to_string()),
    ]);
    assert!(result.import_uris.is_empty());
    assert_eq!(result.diagnostics.len(), 2);
    assert_eq!(
        result.diagnostics[0].message,
        "Failed to find import path: foo/bar.mojom: NotFound"
    );
    assert_eq!(result.diagnostics[0].range, range((1, 0), (1, 23)));
    assert_eq!(result.diagnostics[0].severity, Some(DiagnosticSeverity::Error));
    assert_eq!(result.diagnostics[0].code, Some("mojom".to_string()));
    assert_eq!(result.diagnostics[0].source, Some("mojom-lsp".to_string()));
    assert_eq!(
        result.diagnostics[1].message,
        "Import path does not exist: \"/r/baz.mojom\""
    );
    assert_eq!(result.diagnostics[1].range, range((2, 0), (2, 19)));
}

#[test]
fn complains_about_every_module_statement_after_the_first() {
    let ast = ast("module a;\nmodule b.c;\nenum E {};\nmodule d;");
    let result = ast.check_semantics(&vec![]);
    assert_eq!(result.module_name, Some("a".to_string()));
    let messages: Vec<&str> = result.diagnostics.iter().map(|d| d.message.as_str()).collect();
    assert_eq!(
        messages,
        vec![
            "Found more than one module statement: b.c",
            "Found more than one module statement: d"
        ]
    );
    assert_eq!(result.diagnostics[0].range, range((1, 0), (1, 11)));
}

#[test]
fn a_document_knows_its_first_module() {
    let ast = document::MojomAst::new("file:///a".to_string(), "module a.b;\nmodule c;".to_string())
        .unwrap();
    assert_eq!(ast.uri, "file:///a");
    assert_eq!(ast.module_name(), Some("a.b"));
    let at = ast.line_col(12);
    assert_eq!((at.line, at.col), (1, 0));
    assert_eq!(ast.text(&syntax::Range { start: 7, end: 10 }), "a.b");

    let ast = document::MojomAst::new("file:///a".to_string(), "enum E {};".to_string()).unwrap();
    assert_eq!(ast.module_name(), None);

    let err = document::MojomAst::new("file:///a".to_string(), "module ;".to_string()).unwrap_err();
    assert_eq!(err.at, 7);
}

#[test]
fn the_shown_position_leads_to_the_symbol() {
    for text in [MY_INTERFACE, SAMPLE, "interface A {}; interface B { C(); D(); };"] {
        let ast = ast(text);
        for symbol in ast.get_document_symbols() {
            let found = ast.find_symbol_from_position(&symbol.name_range().start);
            match symbol {
                DocumentSymbol::Interface(_) | DocumentSymbol::Method(_) => {
                    assert_eq!(found, Some(symbol))
                }
                _ => assert_eq!(found, None),
            }
        }
    }
}

#[test]
fn statements_stand_one_behind_the_other() {
    let ast = ast(SAMPLE);
    let symbols = ast.get_document_symbols();
    let end = |range: &Range| (range.end.line, range.end.character);
    let start = |range: &Range| (range.start.line, range.start.character);
    assert!(end(symbols[0].range()) <= start(symbols[3].range()));
    assert!(end(symbols[3].range()) <= start(symbols[4].range()));
    assert!(end(symbols[6].name_range()) <= start(symbols[7].range()));
    assert!(end(symbols[7].range()) <= start(symbols[8].range()));
}

#[test]
fn import_below_the_root_comes_first() {
    let nowhere = || ImportResolution::NotFound("no such file".to_owned());
    let missing = || ImportResolution::Missing("/src/a.mojom".to_owned());
    let generated = || ImportResolution::Found("file:///gen/a.mojom".to_owned());
    let found = || ImportResolution::Found("file:///src/a.mojom".to_owned());
    assert_eq!(or_generated(found(), generated()), found());
    assert_eq!(or_generated(missing(), generated()), missing());
    assert_eq!(or_generated(nowhere(), generated()), generated());
    assert_eq!(or_generated(nowhere(), missing()), missing());
}
