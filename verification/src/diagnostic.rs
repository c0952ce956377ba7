//! The diagnostics of one document at a time.
use vstd::prelude::*;

use crate::document::MojomAst;
use crate::document_symbol;
use crate::document_symbol::DocumentSymbol;
use crate::grammar::Rule;
use crate::lsp;
use crate::mojomast;
use crate::parser;
use crate::syntax;
use crate::syntax::LineCol;
use crate::text;
use crate::workspace::{ParsedSymbols, PublishDiagnosticsParams};

verus! {

/// Creates an error with the code `mojom`.
pub fn create_diagnostic(range: lsp::Range, message: String) -> (r: lsp::Diagnostic)
    ensures
        r@ == lsp::error_view(range, "mojom-lsp"@, message@),
{
    lsp::Diagnostic {
        range,
        severity: Some(lsp::DiagnosticSeverity::Error),
        code: Some("mojom".to_owned()),
        source: Some("mojom-lsp".to_owned()),
        message,
    }
}

/// The range as the protocol counts.
pub fn into_lsp_range(start: &LineCol, end: &LineCol) -> (r: lsp::Range)
    ensures
        r.start.line == start.line as u32,
        r.start.character == start.col as u32,
        r.end.line == end.line as u32,
        r.end.character == end.col as u32,
{
    lsp::Range {
        start: lsp::Position { line: start.line as u32, character: start.col as u32 },
        end: lsp::Position { line: end.line as u32, character: end.col as u32 },
    }
}

/// The current document.
#[derive(Debug)]
pub struct Diagnostic {
    /// Whether clangd can be asked.
    pub clangd: bool,
    /// The current syntax tree with its text.
    pub ast: Option<MojomAst>,
    /// Parsed Mojom files that are imported from the current document, with their URIs.
    pub imported_files: Option<Vec<(String, ParsedSymbols)>>,
}

/// Where the first of `files` that defines `ident` defines it.
pub open spec fn first_definition(
    files: Seq<(String, ParsedSymbols)>,
    ident: Seq<char>,
) -> Option<lsp::LocationView>
    decreases files.len(),
{
    if files.len() == 0 {
        None
    } else {
        match files[0].1.definition(ident) {
            Some(range) => Some(lsp::LocationView { uri: files[0].0@, range }),
            None => first_definition(files.skip(1), ident),
        }
    }
}

/// Finds where the first of `files` that defines `ident` defines it.
pub fn find_definition_in_imported_files(files: &Vec<(String, ParsedSymbols)>, ident: &str) -> (r:
    Option<lsp::Location>)
    ensures
        match r {
            Some(location) => first_definition(files@, ident@) == Some(location@),
            None => first_definition(files@, ident@) is None,
        },
{
    let mut i: usize = 0;
    proof {
        assert(files@.skip(0) =~= files@);
    }
    while i < files.len()
        invariant
            i <= files@.len(),
            first_definition(files@, ident@) == first_definition(files@.skip(i as int), ident@),
        decreases files@.len() - i,
    {
        proof {
            assert(files@.skip(i as int)[0] == files@[i as int]);
            assert(files@.skip(i as int).skip(1) =~= files@.skip(i + 1));
        }
        let file = &files[i];
        if let Some(range) = file.1.find_definition(ident) {
            return Some(lsp::Location { uri: file.0.clone(), range });
        }
        i = i + 1;
    }
    None
}

/// Those of `files` that could be read.
pub open spec fn readable(files: Seq<(String, Option<ParsedSymbols>)>) -> Seq<
    (String, ParsedSymbols),
>
    decreases files.len(),
{
    if files.len() == 0 {
        Seq::empty()
    } else {
        let before = readable(files.drop_last());
        match files.last().1 {
            Some(symbols) => before.push((files.last().0, symbols)),
            None => before,
        }
    }
}

impl Diagnostic {
    /// Whether the syntax tree belongs to its text.
    pub open spec fn wf(self) -> bool {
        self.ast matches Some(ast) ==> ast.wf()
    }

    /// Whether the current document is the one at `uri`.
    pub open spec fn is_at(self, uri: Seq<char>) -> bool {
        self.ast matches Some(ast) && ast.uri@ == uri
    }

    /// No document.
    pub fn new(clangd: bool) -> (r: Diagnostic)
        ensures
            r.clangd == clangd,
            r.ast is None,
            r.imported_files is None,
            r.wf(),
    {
        Diagnostic { clangd, ast: None, imported_files: None }
    }

    /// Whether the current document is the one at `uri`. Where it is not, that document has to
    /// be opened before it can be asked about.
    pub fn is_same_uri(&self, uri: &str) -> (r: bool)
        ensures
            r == self.is_at(uri@),
    {
        match &self.ast {
            Some(ast) => text::str_eq(uri, ast.uri.as_str()),
            None => false,
        }
    }

    /// Makes the document at `uri` the current one, and gives its diagnostics.
    pub fn check_syntax(&mut self, uri: String, text: String) -> (r: PublishDiagnosticsParams)
        ensures
            final(self).wf(),
            final(self).clangd == old(self).clangd,
            final(self).imported_files == old(self).imported_files,
            r.uri@ == uri@,
            r.version is None,
            match final(self).ast {
                Some(ast) => {
                    &&& ast.uri@ == uri@
                    &&& ast.ast.text@ == text@
                    &&& syntax::is_tree_of(ast.ast.mojom, text@)
                    &&& lsp::diagnostic_views(r.diagnostics@) == ast.ast.module_errors(
                        mojomast::later_modules(ast.ast.mojom.stmts@),
                    )
                },
                None => {
                    &&& !syntax::is_mojom(text@)
                    &&& r.diagnostics@.len() == 1
                    &&& syntax::is_syntax_error(r.diagnostics@[0]@, text@, "mojom-lsp"@)
                },
            },
    {
        let mut diagnostics: Vec<lsp::Diagnostic> = Vec::new();
        match syntax::parse(text.as_str()) {
            Ok(mojom) => {
                let ast = MojomAst::from_mojom(uri.clone(), text, mojom);
                ast.ast.check_modules(&mut diagnostics);
                proof {
                    assert(lsp::diagnostic_views(diagnostics@) =~= ast.ast.module_errors(
                        mojomast::later_modules(ast.ast.mojom.stmts@),
                    ));
                }
                self.ast = Some(ast);
            },
            Err(err) => {
                self.ast = None;
                let (start, end) = err.range();
                let range = into_lsp_range(&start, &end);
                diagnostics.push(create_diagnostic(range, err.to_string()));
                proof {
                    assert(parser::is_listing(
                        err.err.expected@,
                        parser::parsed(Rule::mojom_file, text@).trace.rules,
                    ));
                }
            },
        }
        PublishDiagnosticsParams { uri, diagnostics, version: None }
    }

    /// Takes the files that the current document imports, in their order. Those that could not
    /// be read are passed over. Where there is no document, what was known stays.
    pub fn check_imported_files(&mut self, files: Vec<(String, Option<ParsedSymbols>)>)
        ensures
            final(self).clangd == old(self).clangd,
            final(self).ast == old(self).ast,
            match final(self).imported_files {
                Some(imported) => if old(self).ast is Some {
                    imported@ == readable(files@)
                } else {
                    old(self).imported_files == Some(imported)
                },
                None => old(self).ast is None && old(self).imported_files is None,
            },
    {
        if self.ast.is_none() {
            return;
        }
        let mut imported: Vec<(String, ParsedSymbols)> = Vec::new();
        for file in it: files
            invariant
                it.seq() == files@,
                imported@ == readable(files@.take(it.index() as int)),
        {
            proof {
                let n = it.index() as int;
                assert(files@.take(n + 1).drop_last() =~= files@.take(n));
                assert(files@.take(n + 1).last() == file);
            }
            if let Some(symbols) = file.1 {
                imported.push((file.0, symbols));
            }
        }
        proof {
            assert(files@.take(files@.len() as int) =~= files@);
        }
        self.imported_files = Some(imported);
    }

    /// Drops the parsed results of a document that was closed.
    pub fn did_close_text_document(&mut self, uri: &str)
        ensures
            final(self).clangd == old(self).clangd,
            old(self).is_at(uri@) ==> final(self).ast is None && final(self).imported_files is None,
            !old(self).is_at(uri@) ==> *final(self) == *old(self),
    {
        if self.is_same_uri(uri) {
            self.ast = None;
            self.imported_files = None;
        }
    }

    /// Whether `pos` stands between two characters of the current document.
    pub open spec fn on_text(self, pos: lsp::Position) -> bool {
        self.ast matches Some(ast) ==> ast.ast.on_text(pos)
    }

    /// Where the current document defines `ident`.
    pub open spec fn definition_in_doc(self, ident: Seq<char>) -> Option<lsp::LocationView> {
        match self.ast {
            Some(ast) => match ast.ast.definition(ident) {
                Some(range) => Some(lsp::LocationView { uri: ast.uri@, range }),
                None => None,
            },
            None => None,
        }
    }

    /// Where the imported files define `ident`.
    pub open spec fn definition_in_imported_files(self, ident: Seq<char>) -> Option<
        lsp::LocationView,
    > {
        match self.imported_files {
            Some(files) => first_definition(files@, ident),
            None => None,
        }
    }

    /// Where what stands at `pos` of the current document is defined: in the document, or else
    /// in the files that it imports.
    pub open spec fn definition_at(self, pos: lsp::Position) -> Option<lsp::LocationView> {
        match self.ast {
            Some(ast) => {
                let ident = ast.ast.identifier(pos);
                match self.definition_in_doc(ident) {
                    Some(location) => Some(location),
                    None => self.definition_in_imported_files(ident),
                }
            },
            None => None,
        }
    }

    /// Finds the definition of what stands at `pos` of the current document.
    pub fn find_definition(&self, pos: &lsp::Position) -> (r: Option<lsp::Location>)
        requires
            self.wf(),
            self.on_text(*pos),
        ensures
            match r {
                Some(location) => self.definition_at(*pos) == Some(location@),
                None => self.definition_at(*pos) is None,
            },
    {
        match &self.ast {
            Some(ast) => {
                let ident = ast.ast.get_identifier(pos);
                match ast.ast.find_definition(ident) {
                    Some(range) => Some(lsp::Location { uri: ast.uri.clone(), range }),
                    None => match &self.imported_files {
                        Some(files) => find_definition_in_imported_files(files, ident),
                        None => None,
                    },
                }
            },
            None => None,
        }
    }

    /// Whether the byte offset of `pos` is one that the machine can count.
    pub open spec fn countable(self, pos: lsp::Position) -> bool {
        self.ast matches Some(ast) ==> mojomast::offset_of(ast.ast.text@, pos) <= usize::MAX
    }

    /// The interface or the method at `pos` of the current document.
    pub open spec fn symbol_at(self, pos: lsp::Position) -> Option<document_symbol::SymbolView> {
        match self.ast {
            Some(ast) => ast.ast.symbol_at_position(pos),
            None => None,
        }
    }

    /// Finds the interface or the method at `pos` of the current document.
    pub fn find_symbol(&self, pos: &lsp::Position) -> (r: Option<DocumentSymbol>)
        requires
            self.wf(),
            self.countable(*pos),
        ensures
            match r {
                Some(symbol) => self.symbol_at(*pos) == Some(symbol@),
                None => self.symbol_at(*pos) is None,
            },
    {
        match &self.ast {
            Some(ast) => ast.ast.find_symbol_from_position(pos),
            None => None,
        }
    }

    /// The symbol whose implementations clangd has to be asked about.
    pub fn goto_implementation(&self, pos: &lsp::Position) -> (r: Option<DocumentSymbol>)
        requires
            self.wf(),
            self.countable(*pos),
        ensures
            match r {
                Some(symbol) => self.clangd && self.symbol_at(*pos) == Some(symbol@),
                None => !self.clangd || self.symbol_at(*pos) is None,
            },
    {
        match self.find_symbol(pos) {
            Some(symbol) => if self.clangd {
                Some(symbol)
            } else {
                None
            },
            None => None,
        }
    }

    /// The symbol to which clangd has to find the references: the one of the proxy class.
    pub fn find_references(&self, pos: &lsp::Position) -> (r: Option<DocumentSymbol>)
        requires
            self.wf(),
            self.countable(*pos),
        ensures
            match r {
                Some(symbol) => self.clangd && (self.symbol_at(*pos) matches Some(s) && symbol@
                    == document_symbol::proxy_of(s)),
                None => !self.clangd || self.symbol_at(*pos) is None,
            },
    {
        match self.find_symbol(pos) {
            Some(symbol) => if self.clangd {
                Some(symbol.to_proxy_symbol())
            } else {
                None
            },
            None => None,
        }
    }
}

} // verus!
