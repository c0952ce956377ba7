use mojom_lsp::bindings::{
    binding_header_paths, filter_implementations, header_document, header_paths, is_generated_path,
    is_mojom_generated, opened_header, retain_not_generated, CppBindingHeader, EnsureAction,
    FoundLocations, GotoImplementationResponse, OpenBindings,
};
use mojom_lsp::document_symbol::{DocumentSymbol, EnumSymbol, InterfaceSymbol, MethodSymbol};
use mojom_lsp::lsp::{Location, Position, Range, SymbolInformation, SymbolKind};
use mojom_lsp::text;

fn range(start: (u32, u32), end: (u32, u32)) -> Range {
    Range {
        start: Position {
            line: start.0,
            character: start.1,
        },
        end: Position {
            line: end.0,
            character: end.1,
        },
    }
}

fn symbol(name: &str, kind: SymbolKind, range: Range) -> SymbolInformation {
    SymbolInformation {
        name: name.to_string(),
        kind,
        location: location("file:///gen/a.mojom.h", range),
    }
}

fn location(uri: &str, range: Range) -> Location {
    Location {
        uri: uri.to_string(),
        range,
    }
}

fn place() -> Range {
    range((0, 0), (0, 1))
}

fn header() -> CppBindingHeader {
    opened_header(
        "file:///gen/a.mojom.h".to_string(),
        Some(vec![
            symbol("Foo", SymbolKind::Other, range((0, 0), (90, 0))),
            symbol("Foo", SymbolKind::Class, range((1, 0), (9, 1))),
            symbol("Inner", SymbolKind::Class, range((2, 2), (4, 3))),
            symbol("Call", SymbolKind::Method, range((3, 4), (3, 20))),
            symbol("Call", SymbolKind::Method, range((6, 2), (6, 18))),
            symbol("FooProxy", SymbolKind::Class, range((11, 0), (15, 1))),
            symbol("Call", SymbolKind::Method, range((12, 2), (12, 18))),
            symbol("Free", SymbolKind::Method, range((20, 0), (20, 9))),
        ]),
    )
}

fn interface(name: &str) -> DocumentSymbol {
    DocumentSymbol::Interface(InterfaceSymbol {
        name: name.to_string(),
        name_range: place(),
        range: place(),
    })
}

fn method(interface_name: &str, name: &str) -> DocumentSymbol {
    DocumentSymbol::Method(MethodSymbol {
        name: name.to_string(),
        interface_name: interface_name.to_string(),
        name_range: place(),
        range: place(),
    })
}

#[test]
fn finds_the_class_of_an_interface() {
    let found = header().find_symbol_location(&interface("Foo")).unwrap();
    assert_eq!(found.range, range((1, 0), (9, 1)));
    assert!(header().find_symbol_location(&interface("Bar")).is_none());
}

#[test]
fn finds_a_method_right_inside_its_class() {
    // The method is behind its return type, `void`.
    let found = header().find_symbol_location(&method("Foo", "Call")).unwrap();
    assert_eq!(found.range, range((6, 7), (6, 18)));
    let found = header().find_symbol_location(&method("Inner", "Call")).unwrap();
    assert_eq!(found.range, range((3, 9), (3, 20)));
    let found = header().find_symbol_location(&method("FooProxy", "Call")).unwrap();
    assert_eq!(found.range, range((12, 7), (12, 18)));
    assert!(header().find_symbol_location(&method("Foo", "Free")).is_none());
    assert!(header().find_symbol_location(&method("Foo", "Other")).is_none());
    let target = DocumentSymbol::Enum(EnumSymbol {
        name: "Foo".to_string(),
        name_range: place(),
        range: place(),
    });
    assert!(header().find_symbol_location(&target).is_none());
}

#[test]
fn a_proxy_symbol_is_asked_about_for_references() {
    let target = method("Foo", "Call").to_proxy_symbol();
    let params = header().create_text_document_position_params(&target).unwrap();
    assert_eq!(params.uri, "file:///gen/a.mojom.h");
    assert_eq!(params.position, range((12, 7), (0, 0)).start);
    assert_eq!(target, method("FooProxy", "Call"));
    assert_eq!(interface("Foo").to_proxy_symbol(), interface("FooProxy"));
    let params = header().create_text_document_position_params(&interface("None"));
    assert!(params.is_none());
}

#[test]
fn a_column_has_to_be_counted() {
    let far = opened_header(
        "file:///a.h".to_string(),
        Some(vec![
            symbol("Foo", SymbolKind::Class, range((0, 0), (9, 0))),
            symbol("Call", SymbolKind::Method, range((1, u32::MAX - 4), (2, 0))),
        ]),
    );
    assert!(!far.has_column(&method("Foo", "Call")));
    assert!(far.has_column(&method("Foo", "Other")));
    assert!(far.has_column(&interface("Foo")));
    assert!(header().has_column(&method("Foo", "Call")));
    assert!(opened_header("u".to_string(), None).symbols.is_empty());
}

#[test]
fn generated_files_are_told_by_their_paths() {
    assert!(is_mojom_generated("file:///src/out/gen/a/b.mojom.h"));
    assert!(!is_mojom_generated("file:///src/a/b.mojom.h"));
    assert!(!is_mojom_generated("file:///src/out/gen/a/b.h"));
    // Only the path counts.
    assert!(!is_mojom_generated("file:///a.cc?/gen/mojom"));
    assert!(!is_mojom_generated("/gen/mojom"));
    assert!(is_generated_path("/gen/mojom"));
    assert!(!is_generated_path("gen/mojom"));
}

#[test]
fn generated_files_are_left_out() {
    let generated = || location("file:///out/gen/a.mojom.h", place());
    let written = || location("file:///src/a.cc", place());
    let kept = retain_not_generated(vec![generated(), written(), generated(), written()]);
    assert_eq!(kept, vec![written(), written()]);
    let scalar = GotoImplementationResponse::Scalar(generated());
    assert_eq!(filter_implementations(scalar), None);
    let scalar = GotoImplementationResponse::Scalar(written());
    assert_eq!(filter_implementations(scalar), Some(vec![written()]));
    let array = GotoImplementationResponse::Array(vec![generated()]);
    assert_eq!(filter_implementations(array), Some(vec![]));

    let mut found = FoundLocations::new();
    found.include_header(None);
    found.include_header(Some(vec![written()]));
    found.include_header(Some(vec![generated(), written()]));
    assert_eq!(found.finish(), Some(vec![written(), generated(), written()]));
    let mut found = FoundLocations::new();
    found.include_header(Some(vec![]));
    assert_eq!(found.finish(), None);
}

#[test]
fn headers_are_below_the_directory_for_generated_files() {
    let paths = header_paths("/root/src/a/b.mojom", "/root/src", "/root/src/out/gen");
    assert_eq!(paths.non_blink, "/root/src/out/gen/a/b.mojom.h");
    assert_eq!(paths.blink, "/root/src/out/gen/a/b.mojom-blink.h");
    let paths = binding_header_paths("file:///r/a%20b.mojom", "/r", "/g").unwrap();
    assert_eq!(paths.non_blink, "/g/a%20b.mojom.h");
    assert!(binding_header_paths("no uri", "/r", "/g").is_none());
    let document = header_document("file:///a.h".to_string(), "text".to_string());
    assert_eq!(document.language_id, "cpp");
    assert_eq!((document.version, document.text.as_str()), (1, "text"));
}

#[test]
fn headers_of_one_file_are_open_at_a_time() {
    let mut open = OpenBindings::new();
    match open.ensure_binding_headers("file:///a.mojom") {
        EnsureAction::Reopen(closed) => assert!(closed.is_empty()),
        other => panic!("{:?}", other),
    }
    open.opened("file:///a.mojom".to_string(), Some(header()), None);
    assert!(matches!(
        open.ensure_binding_headers("file:///a.mojom"),
        EnsureAction::Ready
    ));
    assert_eq!(open.bindings.as_ref().unwrap().bindings.len(), 1);
    match open.ensure_binding_headers("file:///b.mojom") {
        EnsureAction::Reopen(closed) => assert_eq!(closed, vec!["file:///gen/a.mojom.h"]),
        other => panic!("{:?}", other),
    }
    assert!(open.bindings.is_none());
    assert!(open.drop_binding_headers().is_empty());
}

#[test]
fn replaces_from_left_to_right() {
    assert_eq!(text::replace("aaa", "aa", "b"), "ba");
    assert_eq!(text::replace("a\u{e4}a", "\u{e4}", ""), "aa");
    assert_eq!(text::replace("ab", "", "-"), "ab".replace("", "-"));
    assert_eq!(text::replace("", "", "-"), "-");
    assert_eq!(text::replace("abc", "x", "y"), "abc");
    assert!(text::contains("abc", "bc") && !text::contains("abc", "ac") && text::contains("", ""));
    assert_eq!(text::last_segment("a::b::c"), Some("c"));
    assert_eq!(text::last_segment("a:::b"), Some(":b"));
    assert_eq!(text::last_segment("::"), None);
}
