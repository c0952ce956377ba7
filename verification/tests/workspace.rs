use mojom_lsp::clangd::ClangdMessage;
use mojom_lsp::document_symbol::DocumentSymbol;
use mojom_lsp::lsp::{DiagnosticSeverity, Location, Position, Range, SymbolKind};
use mojom_lsp::mojomast::ImportResolution;
use mojom_lsp::protocol::ResponseError;
use mojom_lsp::walk::Walk;
use mojom_lsp::workspace::{
    changed_text, check_entry, check_syntax, check_syntax_and_semantics, handle_notification,
    handle_request, parse_mojom_symbols, unimplemented_error, DefinitionStep,
    EntryAction, NotificationKind, ParsedSymbols, PublishDiagnosticsParams, RequestKind, Workspace,
};

use lsp_types::notification::{self, Notification};
use lsp_types::request::Request;

const A: &str = "file:///r/a.mojom";
const B: &str = "file:///r/b.mojom";
const C: &str = "file:///r/c.mojom";

const TEXT_A: &str = r#"module a;
import "b.mojom";
import "c.mojom";
interface MyInterface {
  Call(FromB b, c.FromC c, Own o);
};
struct Own { int8 x; };
"#;

fn position(line: u32, character: u32) -> Position {
    Position { line, character }
}

fn range(start: (u32, u32), end: (u32, u32)) -> Range {
    Range {
        start: position(start.0, start.1),
        end: position(end.0, end.1),
    }
}

fn open(ws: &mut Workspace, uri: &str, text: &str, imports: Vec<&str>) -> PublishDiagnosticsParams {
    let resolutions: Vec<ImportResolution> = imports
        .into_iter()
        .map(|uri| ImportResolution::Found(uri.to_string()))
        .collect();
    ws.update_mojom(
        uri.to_string(),
        check_syntax(text.to_string()),
        &resolutions,
        Some(7),
    )
}

fn workspace(clangd: bool) -> Workspace {
    let mut ws = Workspace::new(clangd);
    let shown = open(&mut ws, A, TEXT_A, vec![B, C]);
    assert_eq!(shown.uri, A);
    assert_eq!(shown.version, Some(7));
    assert!(shown.diagnostics.is_empty());
    ws
}

fn symbols(text: &str) -> ParsedSymbols {
    parse_mojom_symbols(text.to_string()).unwrap()
}

fn reply(step: DefinitionStep) -> Option<Location> {
    match step {
        DefinitionStep::Reply(location) => location,
        DefinitionStep::Load(_, uri) => panic!("asked for {}", uri),
    }
}

#[test]
fn finds_the_definition_in_the_document() {
    let ws = workspace(false);
    let step = ws.goto_definition(A, &position(4, 27), None, 0);
    assert_eq!(
        reply(step),
        Some(Location {
            uri: A.to_string(),
            range: range((6, 7), (6, 10)),
        })
    );
}

#[test]
fn an_own_definition_comes_before_those_of_imports() {
    let mut ws = workspace(false);
    ws.document_symbols_parsed(B.to_string(), symbols("enum Own {};"));
    let found = reply(ws.goto_definition(A, &position(4, 27), None, 0)).unwrap();
    assert_eq!(found.uri, A);
}

#[test]
fn searches_the_imports_in_their_order() {
    let mut ws = workspace(false);
    let at = position(4, 8);
    // The symbols of the imports are not known yet.
    match ws.goto_definition(A, &at, None, 0) {
        DefinitionStep::Load(n, uri) => assert_eq!((n, uri.as_str()), (0, B)),
        other => panic!("{:?}", other),
    }
    ws.document_symbols_parsed(B.to_string(), symbols("module b;\nenum FromB {};"));
    ws.document_symbols_parsed(C.to_string(), symbols("module c;\nenum FromB {};\nenum FromC {};"));
    assert_eq!(
        reply(ws.goto_definition(A, &at, None, 0)),
        Some(Location {
            uri: B.to_string(),
            range: range((1, 0), (1, 14)),
        })
    );
    // With the name of the module before it.
    assert_eq!(
        reply(ws.goto_definition(A, &position(4, 18), None, 0)),
        Some(Location {
            uri: C.to_string(),
            range: range((2, 0), (2, 14)),
        })
    );
    // An import that was searched is not searched again.
    let found = reply(ws.goto_definition(A, &at, None, 1)).unwrap();
    assert_eq!(found.uri, C);
    assert_eq!(reply(ws.goto_definition(A, &at, None, 2)), None);
}

#[test]
fn each_import_is_asked_for_once() {
    let mut ws = workspace(false);
    let at = position(4, 8);
    ws.document_symbols_parsed(B.to_string(), symbols("enum Other {};"));
    match ws.goto_definition(A, &at, None, 0) {
        DefinitionStep::Load(n, uri) => assert_eq!((n, uri.as_str()), (1, C)),
        other => panic!("{:?}", other),
    }
    // One that cannot be read is passed over.
    assert_eq!(ws.import_loaded(1, C.to_string(), None), 2);
    assert_eq!(reply(ws.goto_definition(A, &at, None, 2)), None);
    let loaded = symbols("enum FromB {};");
    assert_eq!(ws.import_loaded(1, C.to_string(), Some(loaded)), 1);
    assert_eq!(reply(ws.goto_definition(A, &at, None, 1)).unwrap().uri, C);
}

// Asks until there is a reply, as `load` gives the texts of the imports.
fn search(
    ws: &mut Workspace,
    at: &Position,
    load: impl Fn(&str) -> Option<&'static str>,
) -> (Option<Location>, Vec<String>) {
    let mut asked = Vec::new();
    let mut next = 0;
    loop {
        match ws.goto_definition(A, at, None, next) {
            DefinitionStep::Reply(location) => return (location, asked),
            DefinitionStep::Load(n, uri) => {
                asked.push(uri.clone());
                let parsed = load(&uri).map(symbols);
                next = ws.import_loaded(n, uri, parsed);
            }
        }
    }
}

#[test]
fn search_gives_the_definition_in_the_first_import_that_has_one() {
    let at = position(4, 8);
    let both = |_: &str| Some("enum FromB {};");
    let second = |uri: &str| if uri == C { Some("enum FromB {};") } else { Some("") };
    let unreadable = |uri: &str| if uri == C { Some("enum FromB {};") } else { None };
    let neither = |_: &str| None;

    let (found, asked) = search(&mut workspace(false), &at, both);
    assert_eq!((found.unwrap().uri.as_str(), asked), (B, vec![B.to_string()]));
    let asks_both = vec![B.to_string(), C.to_string()];
    let (found, asked) = search(&mut workspace(false), &at, second);
    assert_eq!((found.unwrap().uri.as_str(), asked), (C, asks_both.clone()));
    let (found, asked) = search(&mut workspace(false), &at, unreadable);
    assert_eq!((found.unwrap().uri.as_str(), asked), (C, asks_both.clone()));
    assert_eq!(search(&mut workspace(false), &at, neither), (None, asks_both));

    // What is known is not loaded again.
    let mut ws = workspace(false);
    ws.document_symbols_parsed(B.to_string(), symbols("enum FromB {};"));
    let (found, asked) = search(&mut ws, &at, neither);
    assert_eq!((found.unwrap().uri.as_str(), asked.len()), (B, 0));
}

#[test]
fn goes_to_the_start_of_an_import() {
    let ws = workspace(false);
    assert_eq!(ws.import_at(A, &position(1, 9)), Some("b.mojom".to_string()));
    assert_eq!(ws.import_at(A, &position(4, 9)), None);
    assert_eq!(ws.import_at(B, &position(1, 9)), None);
    let found = reply(ws.goto_definition(A, &position(1, 9), Some(B.to_string()), 0));
    assert_eq!(
        found,
        Some(Location {
            uri: B.to_string(),
            range: range((0, 0), (0, 0)),
        })
    );
}

#[test]
fn a_document_that_is_not_open_has_no_definitions() {
    let ws = workspace(false);
    assert!(ws.is_on_text(B, &position(900, 900)));
    assert!(ws.is_countable(B, &position(900, 900)));
    assert_eq!(reply(ws.goto_definition(B, &position(0, 0), None, 0)), None);
    assert!(ws.document_symbol(B).is_none());
    assert!(!ws.is_on_text(A, &position(900, 900)));
    assert!(ws.is_countable(A, &position(900, 900)));
}

#[test]
fn lists_the_symbols_of_an_open_document() {
    let ws = workspace(false);
    let listed = ws.document_symbol(A).unwrap();
    let names: Vec<&str> = listed.iter().map(|s| s.name.as_str()).collect();
    assert_eq!(names, vec!["MyInterface", "Call", "Own"]);
    assert_eq!(listed[0].kind, SymbolKind::Interface);
    assert_eq!(listed[0].location.uri, A);
    assert_eq!(listed[2].location.range, range((6, 0), (6, 23)));
}

#[test]
fn finds_symbols_in_all_documents() {
    let mut ws = workspace(false);
    ws.document_symbols_parsed(B.to_string(), symbols("enum Own {};\nenum OwnPtr {};"));
    let query = |query: &str| -> Vec<(String, Range)> {
        let found = ws.find_symbol(query).unwrap();
        found
            .into_iter()
            .map(|s| (s.location.uri, s.location.range))
            .collect()
    };
    let in_a = (A.to_string(), range((6, 7), (6, 10)));
    let in_b = (B.to_string(), range((0, 5), (0, 8)));
    let ptr_in_b = (B.to_string(), range((1, 5), (1, 11)));
    assert_eq!(query("Own"), vec![in_a.clone(), in_b.clone()]);
    assert_eq!(query("a::mojom::Own"), vec![in_a.clone(), in_b.clone()]);
    assert_eq!(query("Own::"), vec![in_a.clone(), in_b.clone()]);
    assert_eq!(query("OwnPtr"), vec![in_a, in_b, ptr_in_b]);
    assert_eq!(query("MyInterfaceInterfaceBase").len(), 1);
    assert_eq!(query("Ow"), vec![]);
    assert!(ws.find_symbol("::").is_none());
    assert!(ws.find_symbol("").is_none());
}

#[test]
fn asks_clangd_about_interfaces_and_methods() {
    let ws = workspace(true);
    match ws.goto_implementation(3, A, &position(3, 12)) {
        Some(ClangdMessage::GotoImplementation(id, uri, DocumentSymbol::Interface(symbol))) => {
            assert_eq!((id, uri.as_str(), symbol.name.as_str()), (3, A, "MyInterface"));
        }
        other => panic!("{:?}", other),
    }
    match ws.references(4, A, &position(4, 3)) {
        Some(ClangdMessage::References(id, uri, DocumentSymbol::Method(symbol))) => {
            assert_eq!((id, uri.as_str(), symbol.name.as_str()), (4, A, "Call"));
            assert_eq!(symbol.interface_name, "MyInterface");
        }
        other => panic!("{:?}", other),
    }
    assert!(ws.goto_implementation(5, A, &position(6, 8)).is_none());
    assert!(ws.references(5, B, &position(0, 0)).is_none());
    let ws = workspace(false);
    assert!(ws.goto_implementation(3, A, &position(3, 12)).is_none());
    assert!(ws.references(4, A, &position(4, 3)).is_none());
}

#[test]
fn a_text_that_cannot_be_parsed_forgets_the_document() {
    let mut ws = workspace(false);
    let shown = open(&mut ws, A, "module a;\nstruct Own {\n  int8 ;\n};", vec![]);
    assert_eq!(shown.diagnostics.len(), 1);
    let d = &shown.diagnostics[0];
    assert_eq!(d.range, range((2, 7), (2, 8)));
    assert_eq!(d.severity, Some(DiagnosticSeverity::Error));
    assert_eq!(d.code, Some("mojom".to_string()));
    assert!(d.message.contains("expected"));
    assert!(ws.document_symbol(A).is_none());
    assert_eq!(ws.find_symbol("Own").unwrap().len(), 0);
}

#[test]
fn closing_a_document_keeps_its_symbols() {
    let mut ws = workspace(false);
    ws.did_close_text_document(A);
    assert!(ws.document_symbol(A).is_none());
    assert_eq!(ws.find_symbol("Own").unwrap().len(), 1);
}

#[test]
fn semantic_errors_are_added_to_the_diagnostics() {
    let mut diagnostics = Vec::new();
    let parsed = check_syntax_and_semantics(
        check_syntax("module a;\nmodule b;\nimport \"x\";".to_string()),
        &vec![ImportResolution::NotFound("gone".to_string())],
        None,
        &mut diagnostics,
    )
    .unwrap();
    assert_eq!(parsed.module_name, Some("a".to_string()));
    assert!(parsed.import_uris.is_empty());
    let messages: Vec<&str> = diagnostics.iter().map(|d| d.message.as_str()).collect();
    assert_eq!(
        messages,
        vec![
            "Found more than one module statement: b",
            "Failed to find import path: x: gone"
        ]
    );
}

#[test]
fn an_error_at_a_wide_token_is_reported() {
    for (text, end) in [("\u{e4}\u{e4}\u{e4}", 3), ("\u{65e5}\u{672c}", 2), ("\u{65e5} x", 1)] {
        let diagnostic = check_syntax(text.to_string()).unwrap_err();
        assert_eq!(diagnostic.range, range((0, 0), (0, end)));
    }
}

#[test]
fn a_document_with_errors_has_no_symbols() {
    assert!(parse_mojom_symbols("struct".to_string()).is_none());
    let parsed = symbols("module m;\nconst int8 k = 1;");
    assert_eq!(parsed.module_name, Some("m".to_string()));
    assert_eq!(parsed.find_definition("k"), Some(range((1, 0), (1, 17))));
    assert_eq!(parsed.find_definition("m.k"), Some(range((1, 0), (1, 17))));
    assert_eq!(parsed.find_definition("n.k"), None);
}

#[test]
fn the_last_change_is_the_text() {
    let changes = vec!["a".to_string(), "b".to_string()];
    assert_eq!(changed_text(changes), Some("b".to_string()));
    assert_eq!(changed_text(vec![]), None);
}

#[test]
fn tells_requests_apart() {
    assert_eq!(
        handle_request(lsp_types::request::GotoDefinition::METHOD),
        RequestKind::GotoDefinition
    );
    assert_eq!(
        handle_request(lsp_types::request::GotoImplementation::METHOD),
        RequestKind::GotoImplementation
    );
    assert_eq!(
        handle_request(lsp_types::request::References::METHOD),
        RequestKind::References
    );
    assert_eq!(
        handle_request(lsp_types::request::WorkspaceSymbolRequest::METHOD),
        RequestKind::WorkspaceSymbol
    );
    assert_eq!(
        handle_request(lsp_types::request::DocumentSymbolRequest::METHOD),
        RequestKind::DocumentSymbol
    );
    assert_eq!(
        handle_request(lsp_types::request::Rename::METHOD),
        RequestKind::Unimplemented
    );
    let error: ResponseError<u8> = unimplemented_error(lsp_types::request::Rename::METHOD);
    assert_eq!(error.code, -32603);
    assert_eq!(error.message, "textDocument/rename is not implemented");
    assert_eq!(error.data, None);
}

#[test]
fn tells_notifications_apart() {
    assert_eq!(
        handle_notification(notification::DidOpenTextDocument::METHOD),
        NotificationKind::DidOpenTextDocument
    );
    assert_eq!(
        handle_notification(notification::DidChangeTextDocument::METHOD),
        NotificationKind::DidChangeTextDocument
    );
    assert_eq!(
        handle_notification(notification::DidCloseTextDocument::METHOD),
        NotificationKind::DidCloseTextDocument
    );
    for method in [
        notification::Cancel::METHOD,
        notification::SetTrace::METHOD,
        notification::LogTrace::METHOD,
        notification::DidChangeConfiguration::METHOD,
        notification::WillSaveTextDocument::METHOD,
        notification::DidSaveTextDocument::METHOD,
    ] {
        assert_eq!(handle_notification(method), NotificationKind::Ignored);
    }
    assert_eq!(
        handle_notification(notification::DidChangeWatchedFiles::METHOD),
        NotificationKind::Unimplemented
    );
}

#[test]
fn walks_directories_but_those_for_build_results() {
    assert_eq!(check_entry(true, false, "sub"), EntryAction::Descend);
    assert_eq!(check_entry(true, false, "out"), EntryAction::Skip);
    assert_eq!(check_entry(true, false, "d.mojom"), EntryAction::Descend);
    assert_eq!(check_entry(false, true, "a.mojom"), EntryAction::Parse);
    assert_eq!(check_entry(false, true, "out.mojom"), EntryAction::Parse);
    assert_eq!(check_entry(false, true, ".mojom"), EntryAction::Skip);
    assert_eq!(check_entry(false, true, "a.mojom.h"), EntryAction::Skip);
    assert_eq!(check_entry(false, true, "amojom"), EntryAction::Skip);
    assert_eq!(check_entry(false, false, "a.mojom"), EntryAction::Skip);
}

// The entries of the directories of a small workspace: path, whether it is a directory, name.
fn entries(directory: &str) -> Vec<(&'static str, bool, &'static str)> {
    match directory {
        "/" => vec![
            ("/a.mojom", false, "a.mojom"),
            ("/out", true, "out"),
            ("/sub", true, "sub"),
            ("/b.cc", false, "b.cc"),
        ],
        "/sub" => vec![
            ("/sub/deep", true, "deep"),
            ("/sub/c.mojom", false, "c.mojom"),
            ("/sub/out", false, "out"),
        ],
        "/sub/deep" => vec![("/sub/deep/d.mojom", false, "d.mojom")],
        "/out" => vec![("/out/e.mojom", false, "e.mojom")],
        _ => vec![],
    }
}

#[test]
fn walk_hands_out_every_mojom_file_once() {
    let mut walk = Walk::new("/");
    let mut found = Vec::new();
    while let Some(directory) = walk.next() {
        for (path, is_dir, name) in entries(directory) {
            found.extend(walk.entry(path, is_dir, !is_dir, name));
        }
    }
    assert_eq!(vec!["/a.mojom", "/sub/c.mojom", "/sub/deep/d.mojom"], found);
    assert_eq!(None, walk.next());
}

#[test]
fn walk_reads_the_directory_that_was_found_last() {
    let mut walk = Walk::new(0);
    assert_eq!(Some(0), walk.next());
    assert_eq!(None, walk.entry(1, true, false, "x"));
    assert_eq!(None, walk.entry(2, true, false, "y"));
    assert_eq!(None, walk.entry(3, true, false, "out"));
    assert_eq!(Some(4), walk.entry(4, false, true, "z.mojom"));
    assert_eq!(None, walk.entry(5, false, false, "z.mojom"));
    assert_eq!(Some(2), walk.next());
    assert_eq!(Some(1), walk.next());
    assert_eq!(None, walk.next());
}
