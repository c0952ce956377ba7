//! The documents of a workspace, and the requests about them.
use vstd::prelude::*;

use crate::clangd::ClangdMessage;
use crate::document_symbol;
use crate::document_symbol::{DocumentSymbol, SymbolView};
use crate::lsp;
use crate::mojomast;
use crate::mojomast::{ImportResolution, MojomAst};
use crate::parser;
use crate::grammar::Rule;
use crate::protocol::{ErrorCodes, ResponseError};
use crate::syntax;
use crate::text;
use crate::uri_map;
use crate::uri_map::UriMap;

verus! {

/// The symbols of a document and the name of its module.
#[derive(Debug)]
pub struct ParsedSymbols {
    pub module_name: Option<String>,
    pub symbols: Vec<DocumentSymbol>,
}

/// Whether `ident` names a symbol called `name` in a module with this name: by the name alone,
/// or with the name of the module and a dot before it.
pub open spec fn names(
    module_name: Option<Seq<char>>,
    name: Seq<char>,
    ident: Seq<char>,
) -> bool {
    name == ident || (module_name matches Some(m) && m + "."@ + name == ident)
}

/// The range of the first of `ss` that `ident` names.
pub open spec fn first_symbol(
    module_name: Option<Seq<char>>,
    ss: Seq<SymbolView>,
    ident: Seq<char>,
) -> Option<lsp::Range>
    decreases ss.len(),
{
    if ss.len() == 0 {
        None
    } else if names(module_name, ss[0].name, ident) {
        Some(ss[0].range)
    } else {
        first_symbol(module_name, ss.skip(1), ident)
    }
}

impl ParsedSymbols {
    /// What the symbols say.
    pub open spec fn symbol_views(self) -> Seq<SymbolView> {
        document_symbol::document_symbol_views(self.symbols@)
    }

    /// Where `ident` is defined.
    pub open spec fn definition(self, ident: Seq<char>) -> Option<lsp::Range> {
        first_symbol(lsp::option_view(self.module_name), self.symbol_views(), ident)
    }

    /// Finds where `ident` is defined.
    pub fn find_definition(&self, ident: &str) -> (r: Option<lsp::Range>)
        ensures
            r == self.definition(ident@),
    {
        let mut i: usize = 0;
        proof {
            assert(self.symbol_views().skip(0) =~= self.symbol_views());
        }
        while i < self.symbols.len()
            invariant
                i <= self.symbols@.len(),
                self.definition(ident@) == first_symbol(
                    lsp::option_view(self.module_name),
                    self.symbol_views().skip(i as int),
                    ident@,
                ),
            decreases self.symbols@.len() - i,
        {
            let symbol = &self.symbols[i];
            proof {
                let views = self.symbol_views();
                assert(views.skip(i as int)[0] == symbol@);
                assert(views.skip(i as int).skip(1) =~= views.skip(i + 1));
            }
            if text::str_eq(symbol.name(), ident) {
                return Some(*symbol.range());
            }
            if let Some(module_name) = &self.module_name {
                let mut qualified_name = module_name.clone();
                qualified_name.append(".");
                qualified_name.append(symbol.name());
                if text::str_eq(qualified_name.as_str(), ident) {
                    return Some(*symbol.range());
                }
            }
            i = i + 1;
        }
        None
    }
}

/// An open document that could be parsed.
#[derive(Debug)]
pub struct ParsedMojom {
    pub version: Option<i32>,
    pub ast: MojomAst,
    pub module_name: Option<String>,
    pub import_uris: Vec<String>,
}

/// The documents of a workspace.
#[derive(Debug)]
pub struct Workspace {
    /// Whether clangd can be asked.
    pub clangd: bool,
    /// The open documents that could be parsed.
    pub parsed_files: UriMap<ParsedMojom>,
    /// The symbols of documents, open or not.
    pub symbols: UriMap<ParsedSymbols>,
}

impl Workspace {
    /// Whether no document occurs twice and the syntax trees belong to their texts.
    pub open spec fn wf(self) -> bool {
        &&& self.parsed_files.wf()
        &&& self.symbols.wf()
        &&& forall|uri: Seq<char>|
            #[trigger] self.parsed_files.at(uri) matches Some(parsed) ==> parsed.ast.wf()
    }

    /// A workspace without documents.
    pub fn new(clangd: bool) -> (r: Workspace)
        ensures
            r.wf(),
            r.clangd == clangd,
            r.parsed_files.entries@.len() == 0,
            r.symbols.entries@.len() == 0,
    {
        Workspace { clangd, parsed_files: UriMap::new(), symbols: UriMap::new() }
    }

    /// Takes the symbols of a document that was read from a file.
    pub fn document_symbols_parsed(&mut self, uri: String, parsed: ParsedSymbols)
        requires
            old(self).wf(),
        ensures
            final(self).wf(),
            final(self).clangd == old(self).clangd,
            final(self).parsed_files == old(self).parsed_files,
            final(self).symbols.entries@ == uri_map::without(old(self).symbols.entries@, uri@).push(
                (uri, parsed),
            ),
            final(self).symbols.at(uri@) == Some(parsed),
            forall|other: Seq<char>|
                other != uri@ ==> #[trigger] final(self).symbols.at(other) == old(self).symbols.at(
                    other,
                ),
    {
        self.symbols.insert(uri, parsed);
    }

    /// Whether the workspace is `after` once it has taken the symbols of the import with the
    /// number `n`, at `uri`, if it could be read, and a search goes on at the import with the
    /// number `next`: at the same one where its symbols are known now, else at the one after it.
    pub open spec fn takes_import(
        self,
        after: Workspace,
        n: int,
        uri: Seq<char>,
        parsed: Option<ParsedSymbols>,
        next: int,
    ) -> bool {
        &&& after.clangd == self.clangd
        &&& after.parsed_files == self.parsed_files
        &&& match parsed {
            Some(symbols) => {
                &&& next == n
                &&& after.symbols.at(uri) == Some(symbols)
                &&& forall|other: Seq<char>|
                    other != uri ==> #[trigger] after.symbols.at(other) == self.symbols.at(other)
            },
            None => next == n + 1 && after.symbols == self.symbols,
        }
    }

    /// Takes the symbols of the import with the number `n`, if it could be read, and gives the
    /// number of the import at which the search for a definition goes on: an import that cannot
    /// be read is passed over.
    pub fn import_loaded(&mut self, n: usize, uri: String, parsed: Option<ParsedSymbols>) -> (next:
        usize)
        requires
            old(self).wf(),
            n < usize::MAX,
        ensures
            final(self).wf(),
            old(self).takes_import(*final(self), n as int, uri@, parsed, next as int),
            parsed matches Some(symbols) ==> final(self).symbols.entries@ == uri_map::without(
                old(self).symbols.entries@,
                uri@,
            ).push((uri, symbols)),
    {
        match parsed {
            Some(symbols) => {
                self.document_symbols_parsed(uri, symbols);
                n
            },
            None => n + 1,
        }
    }

    /// Forgets the syntax tree of a document that was closed. Its symbols stay.
    pub fn did_close_text_document(&mut self, uri: &str)
        requires
            old(self).wf(),
        ensures
            final(self).wf(),
            final(self).clangd == old(self).clangd,
            final(self).symbols == old(self).symbols,
            final(self).parsed_files.at(uri@) is None,
            forall|other: Seq<char>|
                other != uri@ ==> #[trigger] final(self).parsed_files.at(other) == old(
                    self,
                ).parsed_files.at(other),
    {
        self.parsed_files.remove(uri);
    }
}

/// Parses `text`.
pub fn check_syntax(text: String) -> (r: Result<MojomAst, lsp::Diagnostic>)
    ensures
        match r {
            Ok(ast) => ast.text@ == text@ && syntax::is_tree_of(ast.mojom, text@) && ast.wf(),
            Err(d) => !syntax::is_mojom(text@) && syntax::is_syntax_error(
                d@,
                text@,
                "mojom"@,
            ),
        },
{
    let mojom = match syntax::parse(text.as_str()) {
        Ok(mojom) => mojom,
        Err(err) => {
            let d = err.lsp_diagnostic();
            proof {
                assert(parser::is_listing(
                    err.err.expected@,
                    parser::parsed(Rule::mojom_file, text@).trace.rules,
                ));
            }
            return Err(d);
        },
    };
    Ok(MojomAst::from_mojom(text, mojom))
}

/// Reads the symbols of a document that is not open. Nothing is read where it is no Mojom
/// file.
pub fn parse_mojom_symbols(text: String) -> (r: Option<ParsedSymbols>)
    ensures
        match r {
            Some(parsed) => {
                &&& syntax::is_mojom(text@)
                &&& exists|ast: MojomAst| #[trigger] is_ast_of(ast, text@) && parsed.are_of(ast)
            },
            None => !syntax::is_mojom(text@),
        },
{
    let mojom = match syntax::parse(text.as_str()) {
        Ok(mojom) => mojom,
        Err(_) => {
            return None;
        },
    };
    let ast = MojomAst::from_mojom(text, mojom);
    let module_name = ast.module_name();
    let symbols = ast.get_document_symbols();
    proof {
        assert(is_ast_of(ast, ast.text@));
    }
    Some(ParsedSymbols { module_name, symbols })
}

/// Whether `ast` is the parsed document with this text.
pub open spec fn is_ast_of(ast: MojomAst, text: Seq<char>) -> bool {
    ast.text@ == text && syntax::is_tree_of(ast.mojom, text)
}

impl ParsedSymbols {
    /// Whether these are the symbols of `ast` and the name of its module.
    pub open spec fn are_of(self, ast: MojomAst) -> bool {
        &&& ast.is_module_name(self.module_name)
        &&& self.symbol_views() == ast.document_symbols()
    }
}

/// The diagnostics of a document, to be shown.
#[derive(Debug)]
pub struct PublishDiagnosticsParams {
    pub uri: String,
    pub diagnostics: Vec<lsp::Diagnostic>,
    pub version: Option<i32>,
}

/// The same optional string.
fn copy_option(s: &Option<String>) -> (r: Option<String>)
    ensures
        lsp::option_view(r) == lsp::option_view(*s),
{
    match s {
        Some(s) => Some(s.clone()),
        None => None,
    }
}

impl ParsedMojom {
    /// Whether this is `ast` with what its semantic check gave.
    pub open spec fn is_of(
        self,
        ast: MojomAst,
        resolutions: Seq<ImportResolution>,
        version: Option<i32>,
    ) -> bool {
        &&& self.ast == ast
        &&& self.version == version
        &&& ast.is_module_name(self.module_name)
        &&& text::strings(self.import_uris@) == mojomast::found_uris(resolutions)
    }
}

/// Checks what the syntax leaves open in a parsed document. `resolutions` says where each of
/// its imports leads.
pub fn check_syntax_and_semantics(
    checked: Result<MojomAst, lsp::Diagnostic>,
    resolutions: &Vec<ImportResolution>,
    version: Option<i32>,
    diagnostics: &mut Vec<lsp::Diagnostic>,
) -> (r: Option<ParsedMojom>)
    requires
        checked matches Ok(ast) ==> ast.wf() && resolutions@.len() == mojomast::imports(
            ast.mojom.stmts@,
        ).len(),
    ensures
        match checked {
            Ok(ast) => {
                &&& r matches Some(parsed)
                &&& parsed.is_of(ast, resolutions@, version)
                &&& lsp::diagnostic_views(final(diagnostics)@) == lsp::diagnostic_views(
                    old(diagnostics)@,
                ) + semantic_errors(ast, resolutions@)
            },
            Err(d) => r is None && final(diagnostics)@ == old(diagnostics)@.push(d),
        },
{
    match checked {
        Ok(ast) => {
            let ghost before = lsp::diagnostic_views(diagnostics@);
            let mut result = ast.check_semantics(resolutions);
            let ghost found = lsp::diagnostic_views(result.diagnostics@);
            diagnostics.append(&mut result.diagnostics);
            proof {
                assert(lsp::diagnostic_views(diagnostics@) =~= before + found);
            }
            Some(
                ParsedMojom {
                    version,
                    ast,
                    module_name: result.module_name,
                    import_uris: result.import_uris,
                },
            )
        },
        Err(d) => {
            diagnostics.push(d);
            None
        },
    }
}

/// What the semantic check says of a document.
pub open spec fn semantic_errors(
    ast: MojomAst,
    resolutions: Seq<ImportResolution>,
) -> Seq<lsp::DiagnosticView> {
    ast.module_errors(mojomast::later_modules(ast.mojom.stmts@)) + ast.import_errors(
        mojomast::imports(ast.mojom.stmts@),
        resolutions,
    )
}

impl Workspace {
    /// Takes the text of a document that was opened or changed, in the form of its syntax
    /// check, and gives the diagnostics to be shown. What was known of the document before is
    /// forgotten, also where the text cannot be parsed.
    pub fn update_mojom(
        &mut self,
        uri: String,
        checked: Result<MojomAst, lsp::Diagnostic>,
        resolutions: &Vec<ImportResolution>,
        version: Option<i32>,
    ) -> (r: PublishDiagnosticsParams)
        requires
            old(self).wf(),
            checked matches Ok(ast) ==> ast.wf() && resolutions@.len() == mojomast::imports(
                ast.mojom.stmts@,
            ).len(),
        ensures
            final(self).wf(),
            final(self).clangd == old(self).clangd,
            r.uri@ == uri@,
            r.version == version,
            match checked {
                Ok(ast) => {
                    &&& final(self).parsed_files.at(uri@) matches Some(parsed)
                    &&& parsed.is_of(ast, resolutions@, version)
                    &&& final(self).symbols.at(uri@) matches Some(symbols)
                    &&& symbols.are_of(ast)
                    &&& lsp::diagnostic_views(r.diagnostics@) == semantic_errors(ast, resolutions@)
                },
                Err(d) => {
                    &&& final(self).parsed_files.at(uri@) is None
                    &&& final(self).symbols.at(uri@) is None
                    &&& r.diagnostics@ == seq![d]
                },
            },
            forall|other: Seq<char>|
                other != uri@ ==> #[trigger] final(self).parsed_files.at(other) == old(
                    self,
                ).parsed_files.at(other),
            forall|other: Seq<char>|
                other != uri@ ==> #[trigger] final(self).symbols.at(other) == old(self).symbols.at(
                    other,
                ),
    {
        self.parsed_files.remove(uri.as_str());
        self.symbols.remove(uri.as_str());
        let mut diagnostics: Vec<lsp::Diagnostic> = Vec::new();
        let parsed = check_syntax_and_semantics(checked, resolutions, version, &mut diagnostics);
        proof {
            if checked is Ok {
                assert(lsp::diagnostic_views(diagnostics@) =~= semantic_errors(
                    checked->Ok_0,
                    resolutions@,
                ));
            }
        }
        if let Some(parsed) = parsed {
            let symbols = ParsedSymbols {
                symbols: parsed.ast.get_document_symbols(),
                module_name: copy_option(&parsed.module_name),
            };
            self.symbols.insert(uri.clone(), symbols);
            self.parsed_files.insert(uri.clone(), parsed);
        }
        PublishDiagnosticsParams { uri, diagnostics, version }
    }
}

/// Takes the text out of the changes of a document: the last of them, which is the whole text.
/// There may be none.
pub fn changed_text(changes: Vec<String>) -> (r: Option<String>)
    ensures
        match r {
            Some(text) => changes@.len() > 0 && text == changes@.last(),
            None => changes@.len() == 0,
        },
{
    let mut changes = changes;
    changes.pop()
}

/// Whether a query for `target` finds a symbol called `name`: under its own name, or under one
/// of the names that the C++ bindings derive from it.
pub open spec fn query_matches(name: Seq<char>, target: Seq<char>) -> bool {
    name == target || name + "Ptr"@ == target || name + "InterfaceBase"@ == target
}

/// How a symbol of the document at `uri` is shown in the answer to a query.
pub open spec fn query_result(uri: Seq<char>, s: SymbolView) -> lsp::SymbolInformationView {
    lsp::SymbolInformationView {
        name: s.name,
        kind: document_symbol::kind_of(s.class),
        location: lsp::LocationView { uri, range: s.name_range },
    }
}

/// What a query finds among the symbols `ss` of the document at `uri`.
pub open spec fn query_results(
    uri: Seq<char>,
    ss: Seq<SymbolView>,
    target: Seq<char>,
) -> Seq<lsp::SymbolInformationView>
    decreases ss.len(),
{
    if ss.len() == 0 {
        Seq::empty()
    } else if query_matches(ss.last().name, target) {
        query_results(uri, ss.drop_last(), target).push(query_result(uri, ss.last()))
    } else {
        query_results(uri, ss.drop_last(), target)
    }
}

/// What a query finds in the documents `es`, one document after the other.
pub open spec fn all_query_results(
    es: Seq<(String, ParsedSymbols)>,
    target: Seq<char>,
) -> Seq<lsp::SymbolInformationView>
    decreases es.len(),
{
    if es.len() == 0 {
        Seq::empty()
    } else {
        all_query_results(es.drop_last(), target) + query_results(
            es.last().0@,
            es.last().1.symbol_views(),
            target,
        )
    }
}

/// Whether a query for `target` finds a symbol called `name`.
fn match_symbol(name: &str, target: &str) -> (r: bool)
    ensures
        r == query_matches(name@, target@),
{
    if text::str_eq(name, target) {
        return true;
    }
    let mut derived = name.to_owned();
    derived.append("Ptr");
    if text::str_eq(derived.as_str(), target) {
        return true;
    }
    let mut derived = name.to_owned();
    derived.append("InterfaceBase");
    text::str_eq(derived.as_str(), target)
}

/// Adds what a query finds in one document.
fn find_in_document(
    uri: &str,
    parsed: &ParsedSymbols,
    target: &str,
    out: &mut Vec<lsp::SymbolInformation>,
)
    ensures
        lsp::symbol_views(final(out)@) == lsp::symbol_views(old(out)@) + query_results(
            uri@,
            parsed.symbol_views(),
            target@,
        ),
{
    let ghost before = lsp::symbol_views(out@);
    let ghost views = parsed.symbol_views();
    let mut i: usize = 0;
    proof {
        assert(before + query_results(uri@, views.take(0), target@) =~= before);
    }
    while i < parsed.symbols.len()
        invariant
            i <= parsed.symbols@.len(),
            views == parsed.symbol_views(),
            lsp::symbol_views(out@) =~= before + query_results(
                uri@,
                views.take(i as int),
                target@,
            ),
        decreases parsed.symbols@.len() - i,
    {
        let symbol = &parsed.symbols[i];
        let ghost so_far = out@;
        proof {
            assert(views.take(i + 1).drop_last() =~= views.take(i as int));
            assert(views.take(i + 1).last() == symbol@);
        }
        if match_symbol(symbol.name(), target) {
            out.push(
                lsp::SymbolInformation {
                    name: symbol.name().to_owned(),
                    kind: symbol.kind(),
                    location: lsp::Location { uri: uri.to_owned(), range: *symbol.name_range() },
                },
            );
            proof {
                assert(lsp::symbol_views(out@) =~= lsp::symbol_views(so_far).push(
                    query_result(uri@, symbol@),
                ));
            }
        }
        i = i + 1;
    }
    proof {
        assert(views.take(i as int) =~= views);
    }
}

/// The name that a query asks for: the last part of it that is not empty, where `::` stands
/// between the parts.
pub open spec fn query_target(query: Seq<char>) -> Option<Seq<char>> {
    match text::last_part(text::utf8(query), 0) {
        Some(p) => Some(text::part(query, p.0, p.1)),
        None => None,
    }
}

impl Workspace {
    /// Finds the symbols that a query asks for in all documents. Where the query names nothing
    /// there is no answer.
    pub fn find_symbol(&self, query: &str) -> (r: Option<Vec<lsp::SymbolInformation>>)
        ensures
            match r {
                Some(found) => query_target(query@) matches Some(target) && lsp::symbol_views(
                    found@,
                ) == all_query_results(self.symbols.entries@, target),
                None => query_target(query@) is None,
            },
    {
        let target = match text::last_segment(query) {
            Some(name) => name,
            None => {
                return None;
            },
        };
        let mut out: Vec<lsp::SymbolInformation> = Vec::new();
        let mut i: usize = 0;
        let ghost es = self.symbols.entries@;
        while i < self.symbols.entries.len()
            invariant
                i <= self.symbols.entries@.len(),
                es == self.symbols.entries@,
                lsp::symbol_views(out@) =~= all_query_results(es.take(i as int), target@),
            decreases self.symbols.entries@.len() - i,
        {
            proof {
                assert(es.take(i + 1).drop_last() =~= es.take(i as int));
            }
            let entry = &self.symbols.entries[i];
            find_in_document(entry.0.as_str(), &entry.1, target, &mut out);
            i = i + 1;
        }
        proof {
            assert(es.take(i as int) =~= es);
        }
        Some(out)
    }

    /// Lists the symbols of an open document. There is no answer for one that is not open or
    /// could not be parsed.
    pub fn document_symbol(&self, uri: &str) -> (r: Option<Vec<lsp::SymbolInformation>>)
        requires
            self.wf(),
        ensures
            match r {
                Some(symbols) => self.parsed_files.at(uri@) matches Some(parsed)
                    && lsp::symbol_views(symbols@) == shown_symbols(
                    uri@,
                    parsed.ast.document_symbols(),
                ),
                None => self.parsed_files.at(uri@) is None,
            },
    {
        let parsed = match self.parsed_files.get(uri) {
            Some(parsed) => parsed,
            None => {
                return None;
            },
        };
        let symbols = parsed.ast.get_document_symbols();
        let ghost views = parsed.ast.document_symbols();
        let mut out: Vec<lsp::SymbolInformation> = Vec::new();
        let mut i: usize = 0;
        while i < symbols.len()
            invariant
                i <= symbols@.len(),
                views == document_symbol::document_symbol_views(symbols@),
                lsp::symbol_views(out@) =~= shown_symbols(uri@, views.take(i as int)),
            decreases symbols@.len() - i,
        {
            let ghost so_far = out@;
            out.push(symbols[i].lsp_symbol(uri));
            proof {
                assert(lsp::symbol_views(out@) =~= lsp::symbol_views(so_far).push(
                    document_symbol::lsp_symbol_of(views[i as int], uri@),
                ));
            }
            i = i + 1;
        }
        proof {
            assert(views.take(i as int) =~= views);
        }
        Some(out)
    }
}

/// How the symbols `ss` of the document at `uri` are shown.
pub open spec fn shown_symbols(
    uri: Seq<char>,
    ss: Seq<SymbolView>,
) -> Seq<lsp::SymbolInformationView> {
    Seq::new(ss.len(), |i: int| document_symbol::lsp_symbol_of(ss[i], uri))
}

/// What a search for a definition comes to.
#[derive(Debug)]
pub enum DefinitionStep {
    /// The definition, or that there is none.
    Reply(Option<lsp::Location>),
    /// The symbols of the import with this number, at this URI, are needed first.
    Load(usize, String),
}

/// What a search for a definition comes to.
#[verifier::ext_equal]
pub enum DefinitionStepView {
    Reply(Option<lsp::LocationView>),
    Load(int, Seq<char>),
}

impl View for DefinitionStep {
    type V = DefinitionStepView;

    open spec fn view(&self) -> DefinitionStepView {
        match self {
            DefinitionStep::Reply(Some(location)) => DefinitionStepView::Reply(Some(location@)),
            DefinitionStep::Reply(None) => DefinitionStepView::Reply(None),
            DefinitionStep::Load(n, uri) => DefinitionStepView::Load(*n as int, uri@),
        }
    }
}

/// What a search for `ident` in the imports at `uris` from number `next` on comes to: it stops
/// at the first one that defines `ident`, or whose symbols are not known.
pub open spec fn search_imports(
    symbols: UriMap<ParsedSymbols>,
    uris: Seq<Seq<char>>,
    ident: Seq<char>,
    next: int,
) -> DefinitionStepView
    decreases uris.len() - next,
{
    if next < 0 || next >= uris.len() {
        DefinitionStepView::Reply(None)
    } else {
        match symbols.at(uris[next]) {
            None => DefinitionStepView::Load(next, uris[next]),
            Some(parsed) => match parsed.definition(ident) {
                Some(range) => DefinitionStepView::Reply(
                    Some(lsp::LocationView { uri: uris[next], range }),
                ),
                None => search_imports(symbols, uris, ident, next + 1),
            },
        }
    }
}

/// The start of a document.
pub open spec fn document_start() -> lsp::Range {
    lsp::Range {
        start: lsp::Position { line: 0, character: 0 },
        end: lsp::Position { line: 0, character: 0 },
    }
}

impl Workspace {
    /// What the search for the definition at `position` comes to. `import` is where the import
    /// at `position` leads, if there is one that leads somewhere. The imports before number
    /// `next` have been searched.
    pub open spec fn definition_step(
        self,
        uri: Seq<char>,
        position: lsp::Position,
        import: Option<Seq<char>>,
        next: int,
    ) -> DefinitionStepView {
        match self.parsed_files.at(uri) {
            None => DefinitionStepView::Reply(None),
            Some(parsed) => match import {
                Some(target) => DefinitionStepView::Reply(
                    Some(lsp::LocationView { uri: target, range: document_start() }),
                ),
                None => {
                    let ident = parsed.ast.identifier(position);
                    match parsed.ast.definition(ident) {
                        Some(range) => DefinitionStepView::Reply(
                            Some(lsp::LocationView { uri, range }),
                        ),
                        None => search_imports(
                            self.symbols,
                            text::strings(parsed.import_uris@),
                            ident,
                            next,
                        ),
                    }
                },
            },
        }
    }

    /// Whether the byte offset of `position` in an open document is one that the machine can
    /// count.
    pub open spec fn countable(self, uri: Seq<char>, position: lsp::Position) -> bool {
        self.parsed_files.at(uri) matches Some(parsed) ==> mojomast::offset_of(
            parsed.ast.text@,
            position,
        ) <= usize::MAX
    }

    /// Whether the byte offset of `position` in an open document is one that the machine can
    /// count.
    pub fn is_countable(&self, uri: &str, position: &lsp::Position) -> (r: bool)
        requires
            self.wf(),
        ensures
            r == self.countable(uri@, *position),
    {
        match self.parsed_files.get(uri) {
            Some(parsed) => parsed.ast.checked_offset(position).is_some(),
            None => true,
        }
    }

    /// Whether `position` stands between two characters of an open document.
    pub open spec fn on_text(self, uri: Seq<char>, position: lsp::Position) -> bool {
        self.parsed_files.at(uri) matches Some(parsed) ==> parsed.ast.on_text(position)
    }

    /// Whether `position` stands between two characters of an open document, so that
    /// [`Workspace::goto_definition`] can be asked for.
    pub fn is_on_text(&self, uri: &str, position: &lsp::Position) -> (r: bool)
        requires
            self.wf(),
        ensures
            r == self.on_text(uri@, *position),
    {
        match self.parsed_files.get(uri) {
            Some(parsed) => parsed.ast.is_on_text(position),
            None => true,
        }
    }

    /// The path of the import at `position` of an open document.
    pub fn import_at(&self, uri: &str, position: &lsp::Position) -> (r: Option<String>)
        requires
            self.wf(),
            self.countable(uri@, *position),
        ensures
            lsp::option_view(r) == (match self.parsed_files.at(uri@) {
                Some(parsed) => parsed.ast.import_path_at_position(*position),
                None => None,
            }),
    {
        match self.parsed_files.get(uri) {
            Some(parsed) => match parsed.ast.import_path_from_position(position) {
                Some(path) => Some(path.to_owned()),
                None => None,
            },
            None => None,
        }
    }

    /// Searches for the definition of what stands at `position`: where the import there leads,
    /// then in the document itself, then in its imports.
    pub fn goto_definition(
        &self,
        uri: &str,
        position: &lsp::Position,
        import: Option<String>,
        next: usize,
    ) -> (r: DefinitionStep)
        requires
            self.wf(),
            import is None ==> self.on_text(uri@, *position),
        ensures
            r@ == self.definition_step(
                uri@,
                *position,
                lsp::option_view(import),
                next as int,
            ),
    {
        let parsed = match self.parsed_files.get(uri) {
            Some(parsed) => parsed,
            None => {
                return DefinitionStep::Reply(None);
            },
        };
        if let Some(target) = import {
            let start = lsp::Position { line: 0, character: 0 };
            let range = lsp::Range { start, end: start };
            return DefinitionStep::Reply(Some(lsp::Location { uri: target, range }));
        }
        // Find definition in the same document.
        let ident = parsed.ast.get_identifier(position);
        if let Some(range) = parsed.ast.find_definition(ident) {
            return DefinitionStep::Reply(Some(lsp::Location { uri: uri.to_owned(), range }));
        }
        // Find definition from imports.
        let ghost uris = text::strings(parsed.import_uris@);
        let mut i: usize = next;
        while i < parsed.import_uris.len()
            invariant
                self.wf(),
                uris == text::strings(parsed.import_uris@),
                self.definition_step(uri@, *position, lsp::option_view(import), next as int)
                    == search_imports(self.symbols, uris, ident@, i as int),
            decreases parsed.import_uris@.len() - i,
        {
            let import_uri = &parsed.import_uris[i];
            proof {
                assert(uris[i as int] == import_uri@);
            }
            match self.symbols.get(import_uri.as_str()) {
                None => {
                    return DefinitionStep::Load(i, import_uri.clone());
                },
                Some(symbols) => {
                    if let Some(range) = symbols.find_definition(ident) {
                        return DefinitionStep::Reply(
                            Some(lsp::Location { uri: import_uri.clone(), range }),
                        );
                    }
                },
            }
            i = i + 1;
        }
        DefinitionStep::Reply(None)
    }

    /// What stands at `position` of an open document, for a question to clangd.
    pub open spec fn clangd_symbol(
        self,
        uri: Seq<char>,
        position: lsp::Position,
    ) -> Option<SymbolView> {
        match self.parsed_files.at(uri) {
            Some(parsed) => if self.clangd {
                parsed.ast.symbol_at_position(position)
            } else {
                None
            },
            None => None,
        }
    }

    /// Finds what stands at `position` of an open document, for a question to clangd.
    fn find_clangd_symbol(&self, uri: &str, position: &lsp::Position) -> (r: Option<DocumentSymbol>)
        requires
            self.wf(),
            self.countable(uri@, *position),
        ensures
            match r {
                Some(symbol) => self.clangd_symbol(uri@, *position) == Some(symbol@),
                None => self.clangd_symbol(uri@, *position) is None,
            },
    {
        if !self.clangd {
            return None;
        }
        match self.parsed_files.get(uri) {
            Some(parsed) => parsed.ast.find_symbol_from_position(position),
            None => None,
        }
    }

    /// Asks for the implementations of what stands at `position`. Without a question to clangd
    /// the answer is that there are none.
    pub fn goto_implementation(
        &self,
        id: u64,
        uri: &str,
        position: &lsp::Position,
    ) -> (r: Option<ClangdMessage>)
        requires
            self.wf(),
            self.countable(uri@, *position),
        ensures
            match r {
                Some(message) => {
                    &&& message matches ClangdMessage::GotoImplementation(i, u, symbol)
                    &&& i == id
                    &&& u@ == uri@
                    &&& self.clangd_symbol(uri@, *position) == Some(symbol@)
                },
                None => self.clangd_symbol(uri@, *position) is None,
            },
    {
        match self.find_clangd_symbol(uri, position) {
            Some(symbol) => Some(ClangdMessage::GotoImplementation(id, uri.to_owned(), symbol)),
            None => None,
        }
    }

    /// Asks for the references to what stands at `position`. Without a question to clangd the
    /// answer is that there are none.
    pub fn references(&self, id: u64, uri: &str, position: &lsp::Position) -> (r: Option<
        ClangdMessage,
    >)
        requires
            self.wf(),
            self.countable(uri@, *position),
        ensures
            match r {
                Some(message) => {
                    &&& message matches ClangdMessage::References(i, u, symbol)
                    &&& i == id
                    &&& u@ == uri@
                    &&& self.clangd_symbol(uri@, *position) == Some(symbol@)
                },
                None => self.clangd_symbol(uri@, *position) is None,
            },
    {
        match self.find_clangd_symbol(uri, position) {
            Some(symbol) => Some(ClangdMessage::References(id, uri.to_owned(), symbol)),
            None => None,
        }
    }
}

/// A request that the workspace answers.
#[derive(Debug, Clone, Copy, PartialEq, Eq, Structural)]
pub enum RequestKind {
    GotoDefinition,
    GotoImplementation,
    References,
    WorkspaceSymbol,
    DocumentSymbol,
    /// The workspace does not answer requests of this method.
    Unimplemented,
}

/// The request that a method stands for.
pub open spec fn request_kind(method: Seq<char>) -> RequestKind {
    if method == "textDocument/definition"@ {
        RequestKind::GotoDefinition
    } else if method == "textDocument/implementation"@ {
        RequestKind::GotoImplementation
    } else if method == "textDocument/references"@ {
        RequestKind::References
    } else if method == "workspace/symbol"@ {
        RequestKind::WorkspaceSymbol
    } else if method == "textDocument/documentSymbol"@ {
        RequestKind::DocumentSymbol
    } else {
        RequestKind::Unimplemented
    }
}

/// Finds out what a request asks for. The request that announces the end of the server does
/// not come here.
pub fn handle_request(method: &str) -> (r: RequestKind)
    requires
        method@ != "shutdown"@,
    ensures
        r == request_kind(method@),
{
    if text::str_eq(method, "textDocument/definition") {
        RequestKind::GotoDefinition
    } else if text::str_eq(method, "textDocument/implementation") {
        RequestKind::GotoImplementation
    } else if text::str_eq(method, "textDocument/references") {
        RequestKind::References
    } else if text::str_eq(method, "workspace/symbol") {
        RequestKind::WorkspaceSymbol
    } else if text::str_eq(method, "textDocument/documentSymbol") {
        RequestKind::DocumentSymbol
    } else {
        RequestKind::Unimplemented
    }
}

/// The error for a request that the workspace does not answer.
pub fn unimplemented_error<V>(method: &str) -> (r: ResponseError<V>)
    ensures
        r.code == -32603,
        r.message@ == method@ + " is not implemented"@,
        r.data is None,
{
    let mut message = method.to_owned();
    message.append(" is not implemented");
    ResponseError::new(ErrorCodes::InternalError, message)
}

/// A notification that the workspace takes.
#[derive(Debug, Clone, Copy, PartialEq, Eq, Structural)]
pub enum NotificationKind {
    DidOpenTextDocument,
    DidChangeTextDocument,
    DidCloseTextDocument,
    /// The workspace has no use for it.
    Ignored,
    /// The workspace does not know it.
    Unimplemented,
}

/// The notification that a method stands for.
pub open spec fn notification_kind(method: Seq<char>) -> NotificationKind {
    if method == "textDocument/didOpen"@ {
        NotificationKind::DidOpenTextDocument
    } else if method == "textDocument/didChange"@ {
        NotificationKind::DidChangeTextDocument
    } else if method == "textDocument/didClose"@ {
        NotificationKind::DidCloseTextDocument
    } else if method == "$/cancelRequest"@ || method == "$/setTrace"@ || method == "$/logTrace"@
        || method == "workspace/didChangeConfiguration"@ || method == "textDocument/willSave"@
        || method == "textDocument/didSave"@ {
        NotificationKind::Ignored
    } else {
        NotificationKind::Unimplemented
    }
}

/// Finds out what a notification says. The one that ends the server does not come here.
pub fn handle_notification(method: &str) -> (r: NotificationKind)
    requires
        method@ != "exit"@,
    ensures
        r == notification_kind(method@),
{
    if text::str_eq(method, "textDocument/didOpen") {
        NotificationKind::DidOpenTextDocument
    } else if text::str_eq(method, "textDocument/didChange") {
        NotificationKind::DidChangeTextDocument
    } else if text::str_eq(method, "textDocument/didClose") {
        NotificationKind::DidCloseTextDocument
    } else if text::str_eq(method, "$/cancelRequest") || text::str_eq(method, "$/setTrace")
        || text::str_eq(method, "$/logTrace") || text::str_eq(
        method,
        "workspace/didChangeConfiguration",
    ) || text::str_eq(method, "textDocument/willSave") || text::str_eq(
        method,
        "textDocument/didSave",
    ) {
        NotificationKind::Ignored
    } else {
        NotificationKind::Unimplemented
    }
}

/// What is done with an entry of a directory when the workspace is read.
#[derive(Debug, Clone, Copy, PartialEq, Eq, Structural)]
pub enum EntryAction {
    /// Read the directory too.
    Descend,
    /// Read the Mojom file.
    Parse,
    /// Leave it.
    Skip,
}

/// What is done with an entry of a directory: every directory but those for build results is
/// read, and every file with the extension of Mojom files. A name that is only an extension
/// is not one.
pub open spec fn entry_action(is_dir: bool, is_file: bool, name: Seq<char>) -> EntryAction {
    if is_dir && name != "out"@ {
        EntryAction::Descend
    } else if is_file && name.len() > 6 && name.skip(name.len() - 6) == ".mojom"@ {
        EntryAction::Parse
    } else {
        EntryAction::Skip
    }
}

/// Decides what to do with an entry of a directory.
pub fn check_entry(is_dir: bool, is_file: bool, name: &str) -> (r: EntryAction)
    ensures
        r == entry_action(is_dir, is_file, name@),
{
    proof {
        reveal_strlit(".mojom");
    }
    if is_dir && !text::str_eq(name, "out") {
        return EntryAction::Descend;
    }
    if is_file && text::has_suffix(name, ".mojom") {
        return EntryAction::Parse;
    }
    EntryAction::Skip
}

} // verus!
