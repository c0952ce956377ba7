//! The values of the Language Server Protocol that the server deals in.
use vstd::prelude::*;

verus! {

/// A place in a document, line and column counted from 0.
#[derive(Debug, Clone, Copy, PartialEq, Eq, Structural)]
pub struct Position {
    pub line: u32,
    pub character: u32,
}

/// A part of a document. The end is not in it.
#[derive(Debug, Clone, Copy, PartialEq, Eq, Structural)]
pub struct Range {
    pub start: Position,
    pub end: Position,
}

/// How bad what a diagnostic reports is.
#[derive(Debug, Clone, Copy, PartialEq, Eq, Structural)]
pub enum DiagnosticSeverity {
    Error,
    Warning,
    Information,
    Hint,
}

/// A message about a part of a document.
#[derive(Debug, PartialEq)]
pub struct Diagnostic {
    pub range: Range,
    pub severity: Option<DiagnosticSeverity>,
    pub code: Option<String>,
    pub source: Option<String>,
    pub message: String,
}

/// What a diagnostic says.
#[verifier::ext_equal]
pub struct DiagnosticView {
    pub range: Range,
    pub severity: Option<DiagnosticSeverity>,
    pub code: Option<Seq<char>>,
    pub source: Option<Seq<char>>,
    pub message: Seq<char>,
}

/// The characters of an optional string.
pub open spec fn option_view(s: Option<String>) -> Option<Seq<char>> {
    match s {
        Some(s) => Some(s@),
        None => None,
    }
}

impl View for Diagnostic {
    type V = DiagnosticView;

    open spec fn view(&self) -> DiagnosticView {
        DiagnosticView {
            range: self.range,
            severity: self.severity,
            code: option_view(self.code),
            source: option_view(self.source),
            message: self.message@,
        }
    }
}

/// An error with the code `mojom`.
pub open spec fn error_view(range: Range, source: Seq<char>, message: Seq<char>) -> DiagnosticView {
    DiagnosticView {
        range,
        severity: Some(DiagnosticSeverity::Error),
        code: Some("mojom"@),
        source: Some(source),
        message,
    }
}

/// What the diagnostics in `ds` say.
pub open spec fn diagnostic_views(ds: Seq<Diagnostic>) -> Seq<DiagnosticView> {
    Seq::new(ds.len(), |i: int| ds[i]@)
}

/// The kind of a symbol.
#[derive(Debug, Clone, Copy, PartialEq, Eq, Structural)]
pub enum SymbolKind {
    Class,
    Method,
    Enum,
    Interface,
    Constant,
    Struct,
    /// A kind that the server does not tell apart.
    Other,
}

/// A part of the document at `uri`.
#[derive(Debug, PartialEq)]
pub struct Location {
    pub uri: String,
    pub range: Range,
}

/// What a location says.
#[verifier::ext_equal]
pub struct LocationView {
    pub uri: Seq<char>,
    pub range: Range,
}

impl View for Location {
    type V = LocationView;

    open spec fn view(&self) -> LocationView {
        LocationView { uri: self.uri@, range: self.range }
    }
}

/// What the locations in `ls` say.
pub open spec fn location_views(ls: Seq<Location>) -> Seq<LocationView> {
    Seq::new(ls.len(), |i: int| ls[i]@)
}

impl Location {
    /// The same location.
    pub fn copy(&self) -> (r: Location)
        ensures
            r@ == self@,
    {
        Location { uri: self.uri.clone(), range: self.range }
    }
}

/// A symbol and where it is.
#[derive(Debug, PartialEq)]
pub struct SymbolInformation {
    pub name: String,
    pub kind: SymbolKind,
    pub location: Location,
}

/// What the information on a symbol says.
#[verifier::ext_equal]
pub struct SymbolInformationView {
    pub name: Seq<char>,
    pub kind: SymbolKind,
    pub location: LocationView,
}

impl View for SymbolInformation {
    type V = SymbolInformationView;

    open spec fn view(&self) -> SymbolInformationView {
        SymbolInformationView { name: self.name@, kind: self.kind, location: self.location@ }
    }
}

/// What the information on symbols in `ss` says.
pub open spec fn symbol_views(ss: Seq<SymbolInformation>) -> Seq<SymbolInformationView> {
    Seq::new(ss.len(), |i: int| ss[i]@)
}

} // verus!
