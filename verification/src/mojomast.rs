//! A parsed document, and what can be asked of it.
use vstd::prelude::*;

use crate::document_symbol;
use crate::document_symbol::{
    Class, ConstSymbol, DocumentSymbol, EnumSymbol, InterfaceSymbol,
    MethodSymbol, StructSymbol, SymbolView, UnionSymbol,
};
use crate::fits;
use crate::lsp;
use crate::peg;
use crate::peg::count_line_rest;
use crate::syntax;
use crate::syntax::{
    line_col, Const, Enum, Import, Interface, InterfaceMember, Method, Module, MojomFile, Range,
    Statement, Struct, StructBody, Union,
};
use crate::text;
use crate::traversal;
use crate::traversal::{preorder, Traversal};

verus! {

/// A text and its syntax tree.
#[derive(Debug)]
pub struct MojomAst {
    pub text: String,
    pub mojom: MojomFile,
}

/// The number of bytes that the first `n` lines from `pos` on take, when each line is
/// counted with one byte for its end. A carriage return before a line feed is not counted.
pub open spec fn lines_len(s: Seq<u8>, pos: int, n: nat) -> nat
    decreases n,
{
    if n == 0 || pos < 0 || pos >= s.len() {
        0
    } else {
        let k = peg::line_rest(s, pos);
        let end = pos + k;
        let len = if end < s.len() && k > 0 && s[end - 1] == 0x0d {
            (k - 1) as nat
        } else {
            k
        };
        len + 1 + lines_len(s, end + 1, (n - 1) as nat)
    }
}

/// The byte offset that `pos` stands for in `text`.
pub open spec fn offset_of(text: Seq<char>, pos: lsp::Position) -> nat {
    lines_len(text::utf8(text), 0, pos.line as nat) + pos.character as nat
}

/// Whether `b` can be part of an identifier: an ASCII letter or digit, `_` or `.`.
pub open spec fn is_identifier_byte(b: u8) -> bool {
    0x30 <= b <= 0x39 || 0x41 <= b <= 0x5a || 0x61 <= b <= 0x7a || b == 0x5f || b == 0x2e
}

/// Whether the identifier around `offset` goes from `start` up to `end`.
pub open spec fn is_identifier_at(s: Seq<u8>, offset: int, start: int, end: int) -> bool {
    &&& 0 <= start <= offset <= end <= s.len()
    &&& forall|i: int| start <= i < end ==> is_identifier_byte(#[trigger] s[i])
    &&& start > 0 ==> !is_identifier_byte(s[start - 1])
    &&& end < s.len() ==> !is_identifier_byte(s[end])
}

/// Where the identifier bytes in front of `pos` start.
pub open spec fn identifier_start(s: Seq<u8>, pos: int) -> int
    decreases pos,
{
    if 0 < pos <= s.len() && is_identifier_byte(s[pos - 1]) {
        identifier_start(s, pos - 1)
    } else {
        pos
    }
}

/// Where the identifier bytes from `pos` on end.
pub open spec fn identifier_end(s: Seq<u8>, pos: int) -> int
    decreases s.len() - pos,
{
    if 0 <= pos < s.len() && is_identifier_byte(s[pos]) {
        identifier_end(s, pos + 1)
    } else {
        pos
    }
}

/// The identifier around a place is the longest run of identifier bytes there.
pub proof fn identifier_is_longest(s: Seq<u8>, pos: int)
    requires
        0 <= pos <= s.len(),
    ensures
        is_identifier_at(s, pos, identifier_start(s, pos), identifier_end(s, pos)),
{
    lemma_identifier_start(s, pos);
    lemma_identifier_end(s, pos);
}

proof fn lemma_identifier_start(s: Seq<u8>, pos: int)
    requires
        0 <= pos <= s.len(),
    ensures
        0 <= identifier_start(s, pos) <= pos,
        forall|i: int| identifier_start(s, pos) <= i < pos ==> is_identifier_byte(#[trigger] s[i]),
        identifier_start(s, pos) > 0 ==> !is_identifier_byte(s[identifier_start(s, pos) - 1]),
    decreases pos,
{
    if 0 < pos && is_identifier_byte(s[pos - 1]) {
        lemma_identifier_start(s, pos - 1);
    }
}

proof fn lemma_identifier_end(s: Seq<u8>, pos: int)
    requires
        0 <= pos <= s.len(),
    ensures
        pos <= identifier_end(s, pos) <= s.len(),
        forall|i: int| pos <= i < identifier_end(s, pos) ==> is_identifier_byte(#[trigger] s[i]),
        identifier_end(s, pos) < s.len() ==> !is_identifier_byte(s[identifier_end(s, pos)]),
    decreases s.len() - pos,
{
    if pos < s.len() && is_identifier_byte(s[pos]) {
        lemma_identifier_end(s, pos + 1);
    }
}

fn identifier_byte(b: u8) -> (r: bool)
    ensures
        r == is_identifier_byte(b),
{
    (0x30 <= b && b <= 0x39) || (0x41 <= b && b <= 0x5a) || (0x61 <= b && b <= 0x7a) || b == 0x5f
        || b == 0x2e
}

impl MojomAst {
    /// Whether the ranges of the tree lie in the text.
    pub open spec fn wf(self) -> bool {
        fits::file_fits(self.mojom, text::utf8(self.text@))
    }

    /// Puts a text and its syntax tree together.
    pub fn from_mojom(text: String, mojom: MojomFile) -> (r: MojomAst)
        ensures
            r.text@ == text@,
            r.mojom == mojom,
    {
        MojomAst { text, mojom }
    }

    /// The text at `field`.
    pub fn text(&self, field: &Range) -> (r: &str)
        requires
            fits::range_fits(*field, text::utf8(self.text@)),
        ensures
            r@ == self.text_at(*field),
    {
        text::slice(self.text.as_str(), field.start, field.end)
    }

    /// The text at `field`.
    pub open spec fn text_at(self, field: Range) -> Seq<char> {
        text::part(self.text@, field.start as int, field.end as int)
    }

    /// The lines and columns of `range`.
    pub open spec fn lsp_range_at(self, range: Range) -> lsp::Range {
        syntax::lsp_range_of(self.text@, range.start as int, range.end as int)
    }

    /// The lines and columns of `range`.
    pub fn lsp_range(&self, range: &Range) -> (r: lsp::Range)
        requires
            fits::range_fits(*range, text::utf8(self.text@)),
        ensures
            r == self.lsp_range_at(*range),
    {
        let pos = line_col(self.text.as_str(), range.start).unwrap();
        let start = lsp::Position { line: pos.line as u32, character: pos.col as u32 };
        let pos = line_col(self.text.as_str(), range.end).unwrap();
        let end = lsp::Position { line: pos.line as u32, character: pos.col as u32 };
        lsp::Range { start, end }
    }

    /// The byte offset of `pos`, where it is one that the machine can count.
    pub fn checked_offset(&self, pos: &lsp::Position) -> (r: Option<usize>)
        ensures
            match r {
                Some(offset) => offset == offset_of(self.text@, *pos),
                None => offset_of(self.text@, *pos) > usize::MAX,
            },
    {
        let s = self.text.as_str().as_bytes();
        let len: usize = s.len();
        let mut offset: usize = 0;
        let mut start: usize = 0;
        let mut line: u32 = 0;
        while start < len && line < pos.line
            invariant
                s@ == text::utf8(self.text@),
                len == s@.len(),
                start <= len,
                line <= pos.line,
                offset + lines_len(s@, start as int, (pos.line - line) as nat) == lines_len(
                    s@,
                    0,
                    pos.line as nat,
                ),
            decreases pos.line - line,
        {
            let k: usize = count_line_rest(s, start);
            let end: usize = start + k;
            let n: usize = if end < len && k > 0 && s[end - 1] == 0x0d {
                k - 1
            } else {
                k
            };
            offset = offset.checked_add(n)?.checked_add(1)?;
            if end >= len {
                proof {
                    let m = (pos.line - line - 1) as nat;
                    assert(lines_len(s@, end + 1, m) == 0);
                    assert(lines_len(s@, len as int, m) == 0);
                }
                start = len;
            } else {
                start = end + 1;
            }
            line = line + 1;
        }
        offset.checked_add(pos.character as usize)
    }

    /// The byte offset of `pos`.
    pub fn get_offset_from_position(&self, pos: &lsp::Position) -> (r: usize)
        requires
            offset_of(self.text@, *pos) <= usize::MAX,
        ensures
            r == offset_of(self.text@, *pos),
    {
        self.checked_offset(pos).unwrap()
    }

    /// Whether `pos` stands between two characters of the text, so that
    /// [`MojomAst::get_identifier`] can be asked for.
    pub fn is_on_text(&self, pos: &lsp::Position) -> (r: bool)
        ensures
            r == self.on_text(*pos),
    {
        let len: usize = self.text.as_str().as_bytes().len();
        match self.checked_offset(pos) {
            Some(offset) => line_col(self.text.as_str(), offset).is_some(),
            None => false,
        }
    }

    /// Whether `pos` stands between two characters of the text.
    pub open spec fn on_text(self, pos: lsp::Position) -> bool {
        text::boundary(text::utf8(self.text@), offset_of(self.text@, pos) as int)
    }

    /// The identifier around `pos`.
    pub open spec fn identifier(self, pos: lsp::Position) -> Seq<char> {
        let s = text::utf8(self.text@);
        let offset = offset_of(self.text@, pos) as int;
        text::part(self.text@, identifier_start(s, offset), identifier_end(s, offset))
    }

    /// The identifier around `pos`.
    pub fn get_identifier(&self, pos: &lsp::Position) -> (r: &str)
        requires
            self.on_text(*pos),
        ensures
            r@ == self.identifier(*pos),
    {
        let s = self.text.as_str().as_bytes();
        let len: usize = s.len();
        let offset: usize = self.get_offset_from_position(pos);
        let mut start: usize = offset;
        while start > 0 && identifier_byte(s[start - 1])
            invariant
                start <= offset <= s@.len(),
                identifier_start(s@, offset as int) == identifier_start(s@, start as int),
            decreases start,
        {
            start = start - 1;
        }
        let mut end: usize = offset;
        while end < len && identifier_byte(s[end])
            invariant
                offset <= end <= len,
                len == s@.len(),
                identifier_end(s@, offset as int) == identifier_end(s@, end as int),
            decreases len - end,
        {
            end = end + 1;
        }
        proof {
            identifier_is_longest(s@, offset as int);
            vstd::utf8::encode_utf8_valid_utf8(self.text@);
            if end > offset {
                assert(is_identifier_byte(s@[end - 1]));
                text::lemma_ascii_boundary(s@, end - 1);
            }
            if start < offset {
                assert(is_identifier_byte(s@[start as int]));
            }
        }
        text::slice(self.text.as_str(), start, end)
    }
}

/// The module statements among `stmts`.
pub open spec fn modules(stmts: Seq<Statement>) -> Seq<Module>
    decreases stmts.len(),
{
    if stmts.len() == 0 {
        Seq::empty()
    } else {
        match stmts.last() {
            Statement::Module(m) => modules(stmts.drop_last()).push(m),
            _ => modules(stmts.drop_last()),
        }
    }
}

/// The import statements among `stmts`.
pub open spec fn imports(stmts: Seq<Statement>) -> Seq<Import>
    decreases stmts.len(),
{
    if stmts.len() == 0 {
        Seq::empty()
    } else {
        match stmts.last() {
            Statement::Import(m) => imports(stmts.drop_last()).push(m),
            _ => imports(stmts.drop_last()),
        }
    }
}

/// What became of the path of an import.
#[derive(Debug, PartialEq)]
pub enum ImportResolution {
    /// The path leads nowhere; how that failure reads.
    NotFound(String),
    /// The path leads to a place, which it reads as, where nothing is.
    Missing(String),
    /// The path leads to the file at this URI.
    Found(String),
}

/// Takes where an import leads below the root directory. Where that is nowhere, it leads below
/// the directory for generated files.
pub fn or_generated(below_root: ImportResolution, generated: ImportResolution) -> (r:
    ImportResolution)
    ensures
        r == (match below_root {
            ImportResolution::NotFound(_) => generated,
            _ => below_root,
        }),
{
    match below_root {
        ImportResolution::NotFound(_) => generated,
        found => found,
    }
}

/// What the semantic check of a document gives.
#[derive(Debug, PartialEq)]
pub struct SemanticsResult {
    pub module_name: Option<String>,
    pub import_uris: Vec<String>,
    pub diagnostics: Vec<lsp::Diagnostic>,
}

/// The URIs of the imports that were found, in their order.
pub open spec fn found_uris(rs: Seq<ImportResolution>) -> Seq<Seq<char>>
    decreases rs.len(),
{
    if rs.len() == 0 {
        Seq::empty()
    } else {
        match rs.last() {
            ImportResolution::Found(uri) => found_uris(rs.drop_last()).push(uri@),
            _ => found_uris(rs.drop_last()),
        }
    }
}

/// Creates a diagnostic of the semantic check.
pub fn create_semantics_diagnostic(range: lsp::Range, message: String) -> (r: lsp::Diagnostic)
    ensures
        r@ == lsp::error_view(range, "mojom-lsp"@, message@),
{
    lsp::Diagnostic {
        range,
        severity: Some(lsp::DiagnosticSeverity::Error),
        code: Some("mojom".to_owned()),
        source: Some("mojom-lsp".to_owned()),
        message,
    }
}

impl MojomAst {
    /// What is said of a module statement after the first one.
    pub open spec fn module_error(self, m: Module) -> lsp::DiagnosticView {
        lsp::error_view(
            self.lsp_range_at(m.range),
            "mojom-lsp"@,
            "Found more than one module statement: "@ + self.text_at(m.name),
        )
    }

    /// What is said of the module statements `ms`.
    pub open spec fn module_errors(self, ms: Seq<Module>) -> Seq<lsp::DiagnosticView> {
        Seq::new(ms.len(), |i: int| self.module_error(ms[i]))
    }

    /// The path of an import, without its quotes.
    pub open spec fn path_at(self, import: Import) -> Seq<char> {
        text::part(self.text@, import.path.start + 1, import.path.end - 1)
    }

    /// What is said of an import that leads nowhere.
    pub open spec fn import_error(
        self,
        import: Import,
        r: ImportResolution,
    ) -> Seq<lsp::DiagnosticView> {
        let range = self.lsp_range_at(import.range);
        match r {
            ImportResolution::NotFound(err) => seq![
                lsp::error_view(
                    range,
                    "mojom-lsp"@,
                    "Failed to find import path: "@ + self.path_at(import) + ": "@ + err@,
                ),
            ],
            ImportResolution::Missing(path) => seq![
                lsp::error_view(range, "mojom-lsp"@, "Import path does not exist: "@ + path@),
            ],
            ImportResolution::Found(_) => Seq::empty(),
        }
    }

    /// What is said of the imports `is`.
    pub open spec fn import_errors(
        self,
        is: Seq<Import>,
        rs: Seq<ImportResolution>,
    ) -> Seq<lsp::DiagnosticView>
        decreases is.len(),
    {
        if is.len() == 0 {
            Seq::empty()
        } else {
            self.import_errors(is.drop_last(), rs.drop_last()) + self.import_error(
                is.last(),
                rs.last(),
            )
        }
    }

    /// The paths of the imports.
    pub open spec fn paths_at(self, is: Seq<Import>) -> Seq<Seq<char>> {
        Seq::new(is.len(), |i: int| self.path_at(is[i]))
    }

    /// The path of an import, without its quotes.
    pub fn import_path(&self, import: &Import) -> (r: &str)
        requires
            fits::import_fits(*import, text::utf8(self.text@)),
        ensures
            r@ == self.path_at(*import),
    {
        proof {
            let s = text::utf8(self.text@);
            vstd::utf8::encode_utf8_valid_utf8(self.text@);
            text::lemma_ascii_boundary(s, import.path.start as int);
            text::lemma_ascii_boundary(s, import.path.end - 1);
        }
        text::slice(self.text.as_str(), import.path.start + 1, import.path.end - 1)
    }

    /// The paths of all imports, in their order and without their quotes.
    pub fn import_paths(&self) -> (r: Vec<String>)
        requires
            self.wf(),
        ensures
            text::strings(r@) == self.paths_at(imports(self.mojom.stmts@)),
    {
        let mut out: Vec<String> = Vec::new();
        let mut i: usize = 0;
        while i < self.mojom.stmts.len()
            invariant
                self.wf(),
                i <= self.mojom.stmts@.len(),
                text::strings(out@) =~= self.paths_at(imports(self.mojom.stmts@.take(i as int))),
            decreases self.mojom.stmts@.len() - i,
        {
            proof {
                let stmts = self.mojom.stmts@;
                assert(stmts.take(i + 1).drop_last() =~= stmts.take(i as int));
                assert(fits::statement_fits(stmts[i as int], text::utf8(self.text@)));
            }
            if let Statement::Import(import) = &self.mojom.stmts[i] {
                let ghost before = out@;
                out.push(self.import_path(import).to_owned());
                proof {
                    assert(text::strings(out@) =~= text::strings(before).push(self.path_at(*import)));
                }
            }
            i = i + 1;
        }
        proof {
            assert(self.mojom.stmts@.take(i as int) =~= self.mojom.stmts@);
        }
        out
    }
}

impl MojomAst {
    /// Finds the module name, and complains about module statements after the first one.
    pub(crate) fn check_modules(&self, diagnostics: &mut Vec<lsp::Diagnostic>) -> (name: Option<String>)
        requires
            self.wf(),
        ensures
            self.is_module_name(name),
            lsp::diagnostic_views(final(diagnostics)@) == lsp::diagnostic_views(
                old(diagnostics)@,
            ) + self.module_errors(later_modules(self.mojom.stmts@)),
    {
        let mut name: Option<String> = None;
        let mut i: usize = 0;
        let ghost before = lsp::diagnostic_views(diagnostics@);
        proof {
            assert(self.module_errors(later_modules(self.mojom.stmts@.take(0))) =~= Seq::empty());
        }
        while i < self.mojom.stmts.len()
            invariant
                self.wf(),
                i <= self.mojom.stmts@.len(),
                match name {
                    Some(n) => {
                        &&& modules(self.mojom.stmts@.take(i as int)).len() > 0
                        &&& n@ == self.text_at(modules(self.mojom.stmts@.take(i as int))[0].name)
                    },
                    None => modules(self.mojom.stmts@.take(i as int)).len() == 0,
                },
                lsp::diagnostic_views(diagnostics@) =~= before + self.module_errors(
                    later_modules(self.mojom.stmts@.take(i as int)),
                ),
            decreases self.mojom.stmts@.len() - i,
        {
            let ghost stmts = self.mojom.stmts@;
            let ghost ms = modules(stmts.take(i as int));
            let ghost so_far = diagnostics@;
            proof {
                assert(stmts.take(i + 1).drop_last() =~= stmts.take(i as int));
                assert(fits::statement_fits(stmts[i as int], text::utf8(self.text@)));
            }
            if let Statement::Module(module) = &self.mojom.stmts[i] {
                proof {
                    assert(modules(stmts.take(i + 1)) =~= ms.push(*module));
                }
                if name.is_none() {
                    name = Some(self.text(&module.name).to_owned());
                    proof {
                        assert(later_modules(stmts.take(i + 1)) =~= Seq::<Module>::empty());
                        assert(later_modules(stmts.take(i as int)) =~= Seq::<Module>::empty());
                    }
                } else {
                    let range = self.lsp_range(&module.range);
                    let mut message = "Found more than one module statement: ".to_owned();
                    message.append(self.text(&module.name));
                    diagnostics.push(create_semantics_diagnostic(range, message));
                    proof {
                        assert(later_modules(stmts.take(i + 1)) =~= later_modules(
                            stmts.take(i as int),
                        ).push(*module));
                        assert(lsp::diagnostic_views(diagnostics@) =~= lsp::diagnostic_views(
                            so_far,
                        ).push(self.module_error(*module)));
                    }
                }
            }
            i = i + 1;
        }
        proof {
            assert(self.mojom.stmts@.take(i as int) =~= self.mojom.stmts@);
        }
        name
    }

    /// Whether `name` is the name in the first module statement.
    pub open spec fn is_module_name(self, name: Option<String>) -> bool {
        let ms = modules(self.mojom.stmts@);
        match name {
            Some(n) => ms.len() > 0 && n@ == self.text_at(ms[0].name),
            None => ms.len() == 0,
        }
    }

    /// Collects the URIs of the imports, and complains about imports that lead nowhere.
    fn check_imports(
        &self,
        resolutions: &Vec<ImportResolution>,
        diagnostics: &mut Vec<lsp::Diagnostic>,
    ) -> (uris: Vec<String>)
        requires
            self.wf(),
            resolutions@.len() == imports(self.mojom.stmts@).len(),
        ensures
            text::strings(uris@) == found_uris(resolutions@),
            lsp::diagnostic_views(final(diagnostics)@) == lsp::diagnostic_views(
                old(diagnostics)@,
            ) + self.import_errors(imports(self.mojom.stmts@), resolutions@),
    {
        let mut uris: Vec<String> = Vec::new();
        let mut i: usize = 0;
        let mut n: usize = 0;
        let total: usize = resolutions.len();
        let ghost before = lsp::diagnostic_views(diagnostics@);
        while i < self.mojom.stmts.len()
            invariant
                self.wf(),
                total == resolutions@.len(),
                total == imports(self.mojom.stmts@).len(),
                i <= self.mojom.stmts@.len(),
                n == imports(self.mojom.stmts@.take(i as int)).len(),
                n <= resolutions@.len(),
                text::strings(uris@) =~= found_uris(resolutions@.take(n as int)),
                lsp::diagnostic_views(diagnostics@) =~= before + self.import_errors(
                    imports(self.mojom.stmts@.take(i as int)),
                    resolutions@.take(n as int),
                ),
            decreases self.mojom.stmts@.len() - i,
        {
            let ghost stmts = self.mojom.stmts@;
            let ghost is = imports(stmts.take(i as int));
            let ghost so_far = diagnostics@;
            let ghost uris_so_far = uris@;
            proof {
                assert(stmts.take(i + 1).drop_last() =~= stmts.take(i as int));
                assert(fits::statement_fits(stmts[i as int], text::utf8(self.text@)));
                lemma_imports_len(stmts, i + 1);
            }
            if let Statement::Import(import) = &self.mojom.stmts[i] {
                let range = self.lsp_range(&import.range);
                proof {
                    assert(imports(stmts.take(i + 1)) =~= is.push(*import));
                    assert(is.push(*import).drop_last() =~= is);
                    assert(resolutions@.take(n + 1).drop_last() =~= resolutions@.take(n as int));
                }
                match &resolutions[n] {
                    ImportResolution::NotFound(err) => {
                        let mut message = "Failed to find import path: ".to_owned();
                        message.append(self.import_path(import));
                        message.append(": ");
                        message.append(err.as_str());
                        diagnostics.push(create_semantics_diagnostic(range, message));
                    },
                    ImportResolution::Missing(path) => {
                        let mut message = "Import path does not exist: ".to_owned();
                        message.append(path.as_str());
                        diagnostics.push(create_semantics_diagnostic(range, message));
                    },
                    ImportResolution::Found(uri) => {
                        uris.push(uri.clone());
                        proof {
                            assert(text::strings(uris@) =~= text::strings(uris_so_far).push(uri@));
                        }
                    },
                }
                proof {
                    assert(lsp::diagnostic_views(diagnostics@) =~= lsp::diagnostic_views(so_far)
                        + self.import_error(*import, resolutions@[n as int]));
                }
                n = n + 1;
            }
            i = i + 1;
        }
        proof {
            assert(self.mojom.stmts@.take(i as int) =~= self.mojom.stmts@);
            assert(resolutions@.take(n as int) =~= resolutions@);
        }
        uris
    }

    /// Checks what the syntax leaves open: that there is at most one module statement and
    /// that the imports lead somewhere. `resolutions` says where each import leads.
    pub fn check_semantics(&self, resolutions: &Vec<ImportResolution>) -> (r: SemanticsResult)
        requires
            self.wf(),
            resolutions@.len() == imports(self.mojom.stmts@).len(),
        ensures
            self.is_module_name(r.module_name),
            text::strings(r.import_uris@) == found_uris(resolutions@),
            lsp::diagnostic_views(r.diagnostics@) == self.module_errors(
                later_modules(self.mojom.stmts@),
            ) + self.import_errors(imports(self.mojom.stmts@), resolutions@),
    {
        let mut diagnostics: Vec<lsp::Diagnostic> = Vec::new();
        proof {
            assert(lsp::diagnostic_views(diagnostics@) =~= Seq::empty());
        }
        let module_name = self.check_modules(&mut diagnostics);
        let import_uris = self.check_imports(resolutions, &mut diagnostics);
        proof {
            assert(lsp::diagnostic_views(diagnostics@) =~= self.module_errors(
                later_modules(self.mojom.stmts@),
            ) + self.import_errors(imports(self.mojom.stmts@), resolutions@));
        }
        SemanticsResult { module_name, import_uris, diagnostics }
    }
}

impl MojomAst {
    /// The name in the first module statement.
    pub fn module_name(&self) -> (r: Option<String>)
        requires
            self.wf(),
        ensures
            self.is_module_name(r),
    {
        let mut i: usize = 0;
        while i < self.mojom.stmts.len()
            invariant
                self.wf(),
                i <= self.mojom.stmts@.len(),
                modules(self.mojom.stmts@.take(i as int)).len() == 0,
            decreases self.mojom.stmts@.len() - i,
        {
            proof {
                let stmts = self.mojom.stmts@;
                assert(stmts.take(i + 1).drop_last() =~= stmts.take(i as int));
                assert(fits::statement_fits(stmts[i as int], text::utf8(self.text@)));
            }
            if let Statement::Module(module) = &self.mojom.stmts[i] {
                proof {
                    lemma_first_module(self.mojom.stmts@, i + 1);
                }
                return Some(self.text(&module.name).to_owned());
            }
            i = i + 1;
        }
        proof {
            assert(self.mojom.stmts@.take(i as int) =~= self.mojom.stmts@);
        }
        None
    }
}

/// The first module among the first statements is the first of all.
pub(crate) proof fn lemma_first_module(stmts: Seq<Statement>, i: int)
    requires
        0 <= i <= stmts.len(),
        modules(stmts.take(i)).len() > 0,
    ensures
        modules(stmts).len() > 0,
        modules(stmts)[0] == modules(stmts.take(i))[0],
    decreases stmts.len(),
{
    if i < stmts.len() {
        assert(stmts.drop_last().take(i) =~= stmts.take(i));
        lemma_first_module(stmts.drop_last(), i);
    } else {
        assert(stmts.take(i) =~= stmts);
    }
}

/// The module statements among `stmts` after the first one.
pub open spec fn later_modules(stmts: Seq<Statement>) -> Seq<Module> {
    if modules(stmts).len() == 0 {
        Seq::empty()
    } else {
        modules(stmts).skip(1)
    }
}

/// The imports in the first statements are some of all imports.
proof fn lemma_imports_len(stmts: Seq<Statement>, i: int)
    requires
        0 <= i <= stmts.len(),
    ensures
        imports(stmts.take(i)).len() <= imports(stmts).len(),
    decreases stmts.len(),
{
    if i < stmts.len() {
        assert(stmts.drop_last().take(i) =~= stmts.take(i));
        lemma_imports_len(stmts.drop_last(), i);
    } else {
        assert(stmts.take(i) =~= stmts);
    }
}

/// Whether the byte at `offset` is in `r`.
pub open spec fn holds(r: Range, offset: int) -> bool {
    r.start <= offset < r.end
}

impl MojomAst {
    /// The symbol of something with this name and range.
    pub open spec fn symbol(self, class: Class, name: Range, range: Range) -> SymbolView {
        SymbolView {
            class,
            name: self.text_at(name),
            name_range: self.lsp_range_at(name),
            range: self.lsp_range_at(range),
        }
    }

    /// The symbol of the first method among `members` whose name holds `offset`.
    pub open spec fn method_at(
        self,
        interface: Interface,
        members: Seq<InterfaceMember>,
        offset: int,
    ) -> Option<SymbolView>
        decreases members.len(),
    {
        if members.len() == 0 {
            None
        } else {
            match members[0] {
                InterfaceMember::Method(m) => if holds(m.name, offset) {
                    Some(self.symbol(Class::Method(self.text_at(interface.name)), m.name, m.range))
                } else {
                    self.method_at(interface, members.skip(1), offset)
                },
                _ => self.method_at(interface, members.skip(1), offset),
            }
        }
    }

    /// The symbol whose name holds `offset` in an interface: the interface itself or one of
    /// its methods.
    pub open spec fn symbol_in(self, interface: Interface, offset: int) -> Option<SymbolView> {
        if !holds(interface.range, offset) {
            None
        } else if holds(interface.name, offset) {
            Some(self.symbol(Class::Interface, interface.name, interface.range))
        } else {
            self.method_at(interface, interface.members@, offset)
        }
    }

    /// The first symbol of an interface or a method among `stmts` whose name holds `offset`.
    pub open spec fn symbol_at(self, stmts: Seq<Statement>, offset: int) -> Option<SymbolView>
        decreases stmts.len(),
    {
        if stmts.len() == 0 {
            None
        } else {
            match stmts[0] {
                Statement::Interface(interface) => match self.symbol_in(interface, offset) {
                    Some(symbol) => Some(symbol),
                    None => self.symbol_at(stmts.skip(1), offset),
                },
                _ => self.symbol_at(stmts.skip(1), offset),
            }
        }
    }

    /// Finds the symbol whose name holds `offset` in an interface.
    fn find_symbol_in(&self, interface: &Interface, offset: usize) -> (r: Option<DocumentSymbol>)
        requires
            fits::interface_fits(*interface, text::utf8(self.text@)),
        ensures
            match r {
                Some(symbol) => self.symbol_in(*interface, offset as int) == Some(symbol@),
                None => self.symbol_in(*interface, offset as int) is None,
            },
    {
        if !interface.range.contains(offset) {
            return None;
        }
        if interface.name.contains(offset) {
            return Some(
                DocumentSymbol::Interface(
                    InterfaceSymbol {
                        name: self.text(&interface.name).to_owned(),
                        name_range: self.lsp_range(&interface.name),
                        range: self.lsp_range(&interface.range),
                    },
                ),
            );
        }
        let mut i: usize = 0;
        proof {
            assert(interface.members@.skip(0) =~= interface.members@);
        }
        while i < interface.members.len()
            invariant
                i <= interface.members@.len(),
                fits::interface_fits(*interface, text::utf8(self.text@)),
                self.symbol_in(*interface, offset as int) == self.method_at(
                    *interface,
                    interface.members@.skip(i as int),
                    offset as int,
                ),
            decreases interface.members@.len() - i,
        {
            proof {
                let ms = interface.members@;
                assert(ms.skip(i as int).skip(1) =~= ms.skip(i + 1));
                assert(fits::interface_member_fits(
                    ms[i as int],
                    interface.range,
                    text::utf8(self.text@),
                ));
            }
            if let InterfaceMember::Method(method) = &interface.members[i] {
                if method.name.contains(offset) {
                    return Some(
                        DocumentSymbol::Method(
                            MethodSymbol {
                                name: self.text(&method.name).to_owned(),
                                name_range: self.lsp_range(&method.name),
                                interface_name: self.text(&interface.name).to_owned(),
                                range: self.lsp_range(&method.range),
                            },
                        ),
                    );
                }
            }
            i = i + 1;
        }
        None
    }

    /// Finds the interface or the method whose name stands at `position`.
    pub fn find_symbol_from_position(&self, position: &lsp::Position) -> (r: Option<DocumentSymbol>)
        requires
            self.wf(),
            offset_of(self.text@, *position) <= usize::MAX,
        ensures
            match r {
                Some(symbol) => self.symbol_at_position(*position) == Some(symbol@),
                None => self.symbol_at_position(*position) is None,
            },
    {
        let offset: usize = self.get_offset_from_position(position);
        let mut i: usize = 0;
        proof {
            assert(self.mojom.stmts@.skip(0) =~= self.mojom.stmts@);
        }
        while i < self.mojom.stmts.len()
            invariant
                self.wf(),
                i <= self.mojom.stmts@.len(),
                offset == offset_of(self.text@, *position),
                self.symbol_at_position(*position) == self.symbol_at(
                    self.mojom.stmts@.skip(i as int),
                    offset as int,
                ),
            decreases self.mojom.stmts@.len() - i,
        {
            proof {
                let stmts = self.mojom.stmts@;
                assert(stmts.skip(i as int).skip(1) =~= stmts.skip(i + 1));
                assert(fits::statement_fits(stmts[i as int], text::utf8(self.text@)));
            }
            if let Statement::Interface(interface) = &self.mojom.stmts[i] {
                let symbol = self.find_symbol_in(interface, offset);
                if symbol.is_some() {
                    return symbol;
                }
            }
            i = i + 1;
        }
        None
    }

    /// The interface or the method whose name stands at `position`.
    pub open spec fn symbol_at_position(self, position: lsp::Position) -> Option<SymbolView> {
        self.symbol_at(self.mojom.stmts@, offset_of(self.text@, position) as int)
    }

    /// The path of the first import among `stmts` whose path holds `offset`.
    pub open spec fn import_path_at(self, stmts: Seq<Statement>, offset: int) -> Option<Seq<char>>
        decreases stmts.len(),
    {
        if stmts.len() == 0 {
            None
        } else {
            match stmts[0] {
                Statement::Import(import) => if holds(import.path, offset) {
                    Some(self.path_at(import))
                } else {
                    self.import_path_at(stmts.skip(1), offset)
                },
                _ => self.import_path_at(stmts.skip(1), offset),
            }
        }
    }

    /// The path of the import at `position`.
    pub open spec fn import_path_at_position(self, position: lsp::Position) -> Option<Seq<char>> {
        self.import_path_at(self.mojom.stmts@, offset_of(self.text@, position) as int)
    }

    /// Finds the import whose path stands at `position`, and gives that path without its
    /// quotes.
    pub fn import_path_from_position(&self, position: &lsp::Position) -> (r: Option<&str>)
        requires
            self.wf(),
            offset_of(self.text@, *position) <= usize::MAX,
        ensures
            match r {
                Some(path) => self.import_path_at_position(*position) == Some(path@),
                None => self.import_path_at_position(*position) is None,
            },
    {
        let offset: usize = self.get_offset_from_position(position);
        let mut i: usize = 0;
        proof {
            assert(self.mojom.stmts@.skip(0) =~= self.mojom.stmts@);
        }
        while i < self.mojom.stmts.len()
            invariant
                self.wf(),
                i <= self.mojom.stmts@.len(),
                offset == offset_of(self.text@, *position),
                self.import_path_at_position(*position) == self.import_path_at(
                    self.mojom.stmts@.skip(i as int),
                    offset as int,
                ),
            decreases self.mojom.stmts@.len() - i,
        {
            proof {
                let stmts = self.mojom.stmts@;
                assert(stmts.skip(i as int).skip(1) =~= stmts.skip(i + 1));
                assert(fits::statement_fits(stmts[i as int], text::utf8(self.text@)));
            }
            if let Statement::Import(import) = &self.mojom.stmts[i] {
                if import.path.contains(offset) {
                    return Some(self.import_path(import));
                }
            }
            i = i + 1;
        }
        None
    }
}

/// Whether the ranges at a step of a walk lie in `s`.
pub(crate) open spec fn step_fits(t: Traversal, s: Seq<u8>) -> bool {
    match t {
        Traversal::EnterInterface(x) => fits::interface_fits(*x, s),
        Traversal::Method(x) => fits::method_fits(*x, s),
        Traversal::EnterStruct(x) => fits::struct_fits(*x, s),
        Traversal::Union(x) => fits::union_fits(*x, s),
        Traversal::Enum(x) => fits::enum_fits(*x, s),
        Traversal::Const(x) => fits::const_fits(*x, s),
        _ => true,
    }
}

/// The ranges at all steps of a walk lie in the text.
pub(crate) proof fn lemma_steps_fit(stmts: Seq<Statement>, s: Seq<u8>)
    requires
        forall|i: int| 0 <= i < stmts.len() ==> fits::statement_fits(#[trigger] stmts[i], s),
    ensures
        forall|k: int|
            0 <= k < traversal::steps(stmts).len() ==> step_fits(
                #[trigger] traversal::steps(stmts)[k],
                s,
            ),
    decreases stmts.len(),
{
    if stmts.len() > 0 {
        let before = stmts.drop_last();
        let last = stmts.last();
        assert(fits::statement_fits(last, s));
        assert forall|i: int| 0 <= i < before.len() implies fits::statement_fits(
            #[trigger] before[i],
            s,
        ) by {
            assert(before[i] == stmts[i]);
        }
        lemma_steps_fit(before, s);
        let a = traversal::steps(before);
        let b = traversal::statement_steps(&last);
        assert forall|k: int| 0 <= k < (a + b).len() implies step_fits(#[trigger] (a + b)[k], s) by {
            if k < a.len() {
                assert(step_fits(a[k], s));
            } else {
                match last {
                    Statement::Interface(x) => {
                        if 0 < k - a.len() <= x.members@.len() {
                            assert(fits::interface_member_fits(
                                x.members@[k - a.len() - 1],
                                x.range,
                                s,
                            ));
                        }
                    },
                    Statement::Struct(x) => {
                        if 0 < k - a.len() <= x.members@.len() {
                            assert(fits::struct_member_fits(
                                x.members@[k - a.len() - 1],
                                x.range,
                                s,
                            ));
                        }
                    },
                    _ => {},
                }
            }
        }
    }
}

impl MojomAst {
    /// The symbol of a member of an interface.
    pub open spec fn interface_member_symbol(
        self,
        interface: Interface,
        m: InterfaceMember,
    ) -> SymbolView {
        match m {
            InterfaceMember::Const(x) => self.symbol(Class::Const, x.name, x.range),
            InterfaceMember::Enum(x) => self.symbol(Class::Enum, x.name, x.range),
            InterfaceMember::Method(x) => self.symbol(
                Class::Method(self.text_at(interface.name)),
                x.name,
                x.range,
            ),
        }
    }

    /// The symbol of a member of a struct. A field has none.
    pub open spec fn struct_member_symbol(self, m: StructBody) -> Seq<SymbolView> {
        match m {
            StructBody::Const(x) => seq![self.symbol(Class::Const, x.name, x.range)],
            StructBody::Enum(x) => seq![self.symbol(Class::Enum, x.name, x.range)],
            StructBody::Field(_) => Seq::empty(),
        }
    }

    /// The symbols of the members of a struct.
    pub open spec fn struct_member_symbols(self, ms: Seq<StructBody>) -> Seq<SymbolView>
        decreases ms.len(),
    {
        if ms.len() == 0 {
            Seq::empty()
        } else {
            self.struct_member_symbols(ms.drop_last()) + self.struct_member_symbol(ms.last())
        }
    }

    /// The symbols of a statement: what it defines, then its members.
    pub open spec fn statement_symbols(self, stmt: Statement) -> Seq<SymbolView> {
        match stmt {
            Statement::Module(_) => Seq::empty(),
            Statement::Import(_) => Seq::empty(),
            Statement::Interface(x) => seq![self.symbol(Class::Interface, x.name, x.range)]
                + Seq::new(
                x.members@.len(),
                |i: int| self.interface_member_symbol(x, x.members@[i]),
            ),
            Statement::Struct(x) => seq![self.symbol(Class::Struct, x.name, x.range)]
                + self.struct_member_symbols(x.members@),
            Statement::Union(x) => seq![self.symbol(Class::Union, x.name, x.range)],
            Statement::Enum(x) => seq![self.symbol(Class::Enum, x.name, x.range)],
            Statement::Const(x) => seq![self.symbol(Class::Const, x.name, x.range)],
        }
    }

    /// The symbols of `stmts`, one statement after the other.
    pub open spec fn symbols_of(self, stmts: Seq<Statement>) -> Seq<SymbolView>
        decreases stmts.len(),
    {
        if stmts.len() == 0 {
            Seq::empty()
        } else {
            self.symbols_of(stmts.drop_last()) + self.statement_symbols(stmts.last())
        }
    }

    /// The symbols of the document.
    pub open spec fn document_symbols(self) -> Seq<SymbolView> {
        self.symbols_of(self.mojom.stmts@)
    }

    /// The symbol at a step of a walk inside the interface with this name.
    spec fn step_symbol(self, t: Traversal, interface: Option<Seq<char>>) -> Seq<SymbolView> {
        match t {
            Traversal::EnterInterface(x) => seq![self.symbol(Class::Interface, x.name, x.range)],
            Traversal::Method(x) => match interface {
                Some(name) => seq![self.symbol(Class::Method(name), x.name, x.range)],
                None => Seq::empty(),
            },
            Traversal::EnterStruct(x) => seq![self.symbol(Class::Struct, x.name, x.range)],
            Traversal::Union(x) => seq![self.symbol(Class::Union, x.name, x.range)],
            Traversal::Enum(x) => seq![self.symbol(Class::Enum, x.name, x.range)],
            Traversal::Const(x) => seq![self.symbol(Class::Const, x.name, x.range)],
            _ => Seq::empty(),
        }
    }

    /// The interface that a walk is in after the steps `ts`.
    spec fn interface_after(self, ts: Seq<Traversal>) -> Option<Seq<char>>
        decreases ts.len(),
    {
        if ts.len() == 0 {
            None
        } else {
            match ts.last() {
                Traversal::EnterInterface(x) => Some(self.text_at(x.name)),
                Traversal::LeaveInterface(_) => None,
                _ => self.interface_after(ts.drop_last()),
            }
        }
    }

    /// The symbols at the steps `ts` of a walk.
    spec fn step_symbols(self, ts: Seq<Traversal>) -> Seq<SymbolView>
        decreases ts.len(),
    {
        if ts.len() == 0 {
            Seq::empty()
        } else {
            self.step_symbols(ts.drop_last()) + self.step_symbol(
                ts.last(),
                self.interface_after(ts.drop_last()),
            )
        }
    }

    /// One more step of a walk.
    proof fn lemma_step(self, a: Seq<Traversal>, t: Traversal)
        ensures
            self.step_symbols(a.push(t)) == self.step_symbols(a) + self.step_symbol(
                t,
                self.interface_after(a),
            ),
    {
        assert(a.push(t).drop_last() =~= a);
    }

    /// The steps at the first members of an interface.
    proof fn lemma_interface_steps(self, a: Seq<Traversal>, x: Interface, n: int)
        requires
            0 <= n <= x.members@.len(),
        ensures
            ({
                let enter = seq![Traversal::EnterInterface(&x)];
                let ts = a + enter + traversal::interface_member_steps(x.members@).take(n);
                &&& self.interface_after(ts) == Some(self.text_at(x.name))
                &&& self.step_symbols(ts) == self.step_symbols(a) + (seq![
                    self.symbol(Class::Interface, x.name, x.range),
                ] + Seq::new(n as nat, |i: int| self.interface_member_symbol(x, x.members@[i])))
            }),
        decreases n,
    {
        let enter = seq![Traversal::EnterInterface(&x)];
        let steps = traversal::interface_member_steps(x.members@);
        let own = self.symbol(Class::Interface, x.name, x.range);
        let members = Seq::new(n as nat, |i: int| self.interface_member_symbol(x, x.members@[i]));
        if n == 0 {
            let ts = a + enter + steps.take(0);
            assert(ts =~= a.push(Traversal::EnterInterface(&x)));
            self.lemma_step(a, Traversal::EnterInterface(&x));
            assert(seq![own] + members =~= seq![own]);
        } else {
            self.lemma_interface_steps(a, x, n - 1);
            let before = a + enter + steps.take(n - 1);
            let t = steps[n - 1];
            assert(a + enter + steps.take(n) =~= before.push(t));
            assert(before.push(t).drop_last() =~= before);
            self.lemma_step(before, t);
            let fewer = Seq::new(
                (n - 1) as nat,
                |i: int| self.interface_member_symbol(x, x.members@[i]),
            );
            let member = self.interface_member_symbol(x, x.members@[n - 1]);
            assert(members =~= fewer.push(member));
            assert(self.step_symbols(a) + (seq![own] + members) =~= self.step_symbols(a) + (
            seq![own] + fewer) + seq![member]);
        }
    }

    /// The steps at the first members of a struct outside any interface.
    proof fn lemma_struct_steps(self, a: Seq<Traversal>, x: Struct, n: int)
        requires
            0 <= n <= x.members@.len(),
            self.interface_after(a) is None,
        ensures
            ({
                let enter = seq![Traversal::EnterStruct(&x)];
                let ts = a + enter + traversal::struct_member_steps(x.members@).take(n);
                &&& self.interface_after(ts) is None
                &&& self.step_symbols(ts) == self.step_symbols(a) + (seq![
                    self.symbol(Class::Struct, x.name, x.range),
                ] + self.struct_member_symbols(x.members@.take(n)))
            }),
        decreases n,
    {
        let enter = seq![Traversal::EnterStruct(&x)];
        let steps = traversal::struct_member_steps(x.members@);
        let own = self.symbol(Class::Struct, x.name, x.range);
        if n == 0 {
            let ts = a + enter + steps.take(0);
            assert(ts =~= a.push(Traversal::EnterStruct(&x)));
            assert(a.push(Traversal::EnterStruct(&x)).drop_last() =~= a);
            self.lemma_step(a, Traversal::EnterStruct(&x));
            assert(seq![own] + self.struct_member_symbols(x.members@.take(0)) =~= seq![own]);
        } else {
            self.lemma_struct_steps(a, x, n - 1);
            let before = a + enter + steps.take(n - 1);
            let t = steps[n - 1];
            assert(a + enter + steps.take(n) =~= before.push(t));
            assert(before.push(t).drop_last() =~= before);
            self.lemma_step(before, t);
            assert(x.members@.take(n).drop_last() =~= x.members@.take(n - 1));
            let fewer = self.struct_member_symbols(x.members@.take(n - 1));
            let member = self.struct_member_symbol(x.members@[n - 1]);
            assert(self.step_symbols(a) + (seq![own] + (fewer + member)) =~= self.step_symbols(a)
                + (seq![own] + fewer) + member);
        }
    }

    /// The steps at a statement.
    proof fn lemma_statement_steps(self, a: Seq<Traversal>, stmt: Statement)
        requires
            self.interface_after(a) is None,
        ensures
            self.interface_after(a + traversal::statement_steps(&stmt)) is None,
            self.step_symbols(a + traversal::statement_steps(&stmt)) == self.step_symbols(a)
                + self.statement_symbols(stmt),
    {
        let b = traversal::statement_steps(&stmt);
        match stmt {
            Statement::Interface(x) => {
                let n = x.members@.len() as int;
                let enter = seq![Traversal::EnterInterface(&x)];
                let steps = traversal::interface_member_steps(x.members@);
                self.lemma_interface_steps(a, x, n);
                assert(steps.take(n) =~= steps);
                let before = a + enter + steps;
                let t = Traversal::LeaveInterface(&x);
                assert(a + b =~= before.push(t));
                self.lemma_step(before, t);
                assert(self.step_symbols(before) + Seq::<SymbolView>::empty()
                    =~= self.step_symbols(before));
            },
            Statement::Struct(x) => {
                let n = x.members@.len() as int;
                let enter = seq![Traversal::EnterStruct(&x)];
                let steps = traversal::struct_member_steps(x.members@);
                self.lemma_struct_steps(a, x, n);
                assert(steps.take(n) =~= steps);
                assert(x.members@.take(n) =~= x.members@);
                let before = a + enter + steps;
                let t = Traversal::LeaveStruct(&x);
                assert(a + b =~= before.push(t));
                assert(before.push(t).drop_last() =~= before);
                self.lemma_step(before, t);
                assert(self.step_symbols(before) + Seq::<SymbolView>::empty()
                    =~= self.step_symbols(before));
            },
            _ => {
                assert(a + b =~= a.push(b[0]));
                assert(a.push(b[0]).drop_last() =~= a);
                self.lemma_step(a, b[0]);
            },
        }
    }

    /// A walk through the document meets its symbols.
    proof fn lemma_walk(self, stmts: Seq<Statement>)
        ensures
            self.interface_after(traversal::steps(stmts)) is None,
            self.step_symbols(traversal::steps(stmts)) == self.symbols_of(stmts),
        decreases stmts.len(),
    {
        if stmts.len() > 0 {
            self.lemma_walk(stmts.drop_last());
            self.lemma_statement_steps(traversal::steps(stmts.drop_last()), stmts.last());
        }
    }
}

impl MojomAst {
    /// Lists the symbols of the document.
    pub fn get_document_symbols(&self) -> (r: Vec<DocumentSymbol>)
        requires
            self.wf(),
        ensures
            document_symbol::document_symbol_views(r@) == self.document_symbols(),
    {
        let steps = preorder(&self.mojom);
        proof {
            lemma_steps_fit(self.mojom.stmts@, text::utf8(self.text@));
            self.lemma_walk(self.mojom.stmts@);
        }
        let mut symbols: Vec<DocumentSymbol> = Vec::new();
        let mut interface: Option<String> = None;
        let mut i: usize = 0;
        while i < steps.len()
            invariant
                i <= steps@.len(),
                forall|k: int|
                    0 <= k < steps@.len() ==> step_fits(
                        #[trigger] steps@[k],
                        text::utf8(self.text@),
                    ),
                lsp::option_view(interface) == self.interface_after(steps@.take(i as int)),
                document_symbol::document_symbol_views(symbols@) =~= self.step_symbols(
                    steps@.take(i as int),
                ),
            decreases steps@.len() - i,
        {
            let ghost before = steps@.take(i as int);
            let ghost so_far = symbols@;
            proof {
                assert(steps@.take(i + 1) =~= before.push(steps@[i as int]));
                assert(before.push(steps@[i as int]).drop_last() =~= before);
                self.lemma_step(before, steps@[i as int]);
                assert(step_fits(steps@[i as int], text::utf8(self.text@)));
            }
            match &steps[i] {
                Traversal::EnterInterface(node) => {
                    let name = self.text(&node.name).to_owned();
                    let name_range = self.lsp_range(&node.name);
                    let range = self.lsp_range(&node.range);
                    interface = Some(name.clone());
                    symbols.push(
                        DocumentSymbol::Interface(InterfaceSymbol { name, name_range, range }),
                    );
                },
                Traversal::LeaveInterface(_) => {
                    interface = None;
                },
                Traversal::Method(node) => {
                    if let Some(interface_name) = &interface {
                        let interface_name = interface_name.clone();
                        let name = self.text(&node.name).to_owned();
                        let name_range = self.lsp_range(&node.name);
                        let range = self.lsp_range(&node.range);
                        symbols.push(
                            DocumentSymbol::Method(
                                MethodSymbol { name, name_range, interface_name, range },
                            ),
                        );
                    }
                },
                Traversal::EnterStruct(node) => {
                    let name = self.text(&node.name).to_owned();
                    let name_range = self.lsp_range(&node.name);
                    let range = self.lsp_range(&node.range);
                    symbols.push(DocumentSymbol::Struct(StructSymbol { name, name_range, range }));
                },
                Traversal::Union(node) => {
                    let name = self.text(&node.name).to_owned();
                    let name_range = self.lsp_range(&node.name);
                    let range = self.lsp_range(&node.range);
                    symbols.push(DocumentSymbol::Union(UnionSymbol { name, name_range, range }));
                },
                Traversal::Enum(node) => {
                    let name = self.text(&node.name).to_owned();
                    let name_range = self.lsp_range(&node.name);
                    let range = self.lsp_range(&node.range);
                    symbols.push(DocumentSymbol::Enum(EnumSymbol { name, name_range, range }));
                },
                Traversal::Const(node) => {
                    let name = self.text(&node.name).to_owned();
                    let name_range = self.lsp_range(&node.name);
                    let range = self.lsp_range(&node.range);
                    symbols.push(DocumentSymbol::Const(ConstSymbol { name, name_range, range }));
                },
                _ => {},
            }
            proof {
                assert(document_symbol::document_symbol_views(symbols@)
                    =~= document_symbol::document_symbol_views(so_far) + self.step_symbol(
                    steps@[i as int],
                    self.interface_after(before),
                ));
            }
            i = i + 1;
        }
        proof {
            assert(steps@.take(i as int) =~= steps@);
        }
        symbols
    }
}

} // verus!
