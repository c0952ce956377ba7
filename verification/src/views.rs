//! What views show of the values that are handed out: every part of them, and nothing else.
use vstd::prelude::*;

use crate::definition;
use crate::document_symbol;
use crate::document_symbol::{Class, DocumentSymbol};
use crate::frame::{FrameError, FrameStep, FrameStepView};
use crate::lsp;
use crate::lsp::{Diagnostic, Location, SymbolInformation};
use crate::parser;
use crate::parser::Pair;
use crate::rpc::{HeaderError, HeaderStep};
use crate::text;
use crate::workspace::{DefinitionStep, DefinitionStepView};

verus! {

/// An optional text is there exactly if the string is, and is what the string holds.
pub proof fn optional_text_is_shown(s: Option<String>)
    ensures
        match s {
            Some(held) => lsp::option_view(s) matches Some(shown) && shown == held@,
            None => lsp::option_view(s) is None,
        },
{
}

/// A diagnostic is shown with all its parts.
pub proof fn diagnostic_is_shown(d: Diagnostic)
    ensures
        d@.range == d.range,
        d@.severity == d.severity,
        d@.code is Some <==> d.code is Some,
        d@.code is Some ==> d@.code->0 == d.code->0@,
        d@.source is Some <==> d.source is Some,
        d@.source is Some ==> d@.source->0 == d.source->0@,
        d@.message == d.message@,
{
}

/// A location and the information on a symbol are shown with all their parts.
pub proof fn place_is_shown(l: Location, s: SymbolInformation)
    ensures
        l@.uri == l.uri@,
        l@.range == l.range,
        s@.name == s.name@,
        s@.kind == s.kind,
        s@.location.uri == s.location.uri@,
        s@.location.range == s.location.range,
{
}

/// A symbol of a document is shown with its class and all its parts.
pub proof fn symbol_is_shown(s: DocumentSymbol)
    ensures
        match s {
            DocumentSymbol::Method(m) => {
                &&& s@.class == Class::Method(m.interface_name@)
                &&& s@.name == m.name@
                &&& s@.name_range == m.name_range
                &&& s@.range == m.range
            },
            DocumentSymbol::Interface(x) => {
                &&& s@.class is Interface
                &&& s@.name == x.name@
                &&& s@.name_range == x.name_range
                &&& s@.range == x.range
            },
            DocumentSymbol::Struct(x) => {
                &&& s@.class is Struct
                &&& s@.name == x.name@
                &&& s@.name_range == x.name_range
                &&& s@.range == x.range
            },
            DocumentSymbol::Union(x) => {
                &&& s@.class is Union
                &&& s@.name == x.name@
                &&& s@.name_range == x.name_range
                &&& s@.range == x.range
            },
            DocumentSymbol::Enum(x) => {
                &&& s@.class is Enum
                &&& s@.name == x.name@
                &&& s@.name_range == x.name_range
                &&& s@.range == x.range
            },
            DocumentSymbol::Const(x) => {
                &&& s@.class is Const
                &&& s@.name == x.name@
                &&& s@.name_range == x.name_range
                &&& s@.range == x.range
            },
        },
{
}

/// Lists are shown item by item, in their order.
pub proof fn lists_are_shown_item_by_item(
    ss: Seq<String>,
    ds: Seq<Diagnostic>,
    ls: Seq<Location>,
    infos: Seq<SymbolInformation>,
    symbols: Seq<DocumentSymbol>,
)
    ensures
        text::strings(ss).len() == ss.len(),
        forall|i: int| 0 <= i < ss.len() ==> #[trigger] text::strings(ss)[i] == ss[i]@,
        lsp::diagnostic_views(ds).len() == ds.len(),
        forall|i: int| 0 <= i < ds.len() ==> #[trigger] lsp::diagnostic_views(ds)[i] == ds[i]@,
        lsp::location_views(ls).len() == ls.len(),
        forall|i: int| 0 <= i < ls.len() ==> #[trigger] lsp::location_views(ls)[i] == ls[i]@,
        lsp::symbol_views(infos).len() == infos.len(),
        forall|i: int|
            0 <= i < infos.len() ==> #[trigger] lsp::symbol_views(infos)[i] == infos[i]@,
        document_symbol::document_symbol_views(symbols).len() == symbols.len(),
        forall|i: int|
            0 <= i < symbols.len() ==> #[trigger] document_symbol::document_symbol_views(symbols)[i]
                == symbols[i]@,
{
}

/// The parts of a path are shown one by one, in their order.
pub proof fn path_is_shown<'a>(path: Seq<&'a str>)
    ensures
        definition::path_views(path).len() == path.len(),
        forall|i: int| 0 <= i < path.len() ==> #[trigger] definition::path_views(path)[i]
            == path[i]@,
{
}

/// What the reading of a header comes to is shown as it is.
pub proof fn header_step_is_shown(step: HeaderStep)
    ensures
        step is More <==> step@ is More,
        step is Done <==> step@ is Done,
        step is Done ==> step@->Done_0.content_length == step->Done_0.content_length,
        step is Failed <==> step@ is Failed,
        step is Failed ==> step@->Failed_0 == step->Failed_0@,
{
}

/// Why a header is refused is shown as it is.
pub proof fn header_error_is_shown(err: HeaderError)
    ensures
        err is NoHeader <==> err@ is NoHeader,
        err is InvalidField <==> err@ is InvalidField,
        err is InvalidField ==> err@->InvalidField_0 == err->InvalidField_0@,
        err is MultipleLengths <==> err@ is MultipleLengths,
        err is InvalidLength <==> err@ is InvalidLength,
        err is MissingLength <==> err@ is MissingLength,
{
}

/// What bytes lead to is shown as it is.
pub proof fn frame_step_is_shown(step: FrameStep)
    ensures
        match step {
            FrameStep::More => step@ is More,
            FrameStep::Message(from, to) => step@ == FrameStepView::Message(from as int, to as int),
            FrameStep::Failed(err) => match err {
                FrameError::Header(reason) => step@ == FrameStepView::Header(reason@),
                FrameError::NotText => step@ is NotText,
                FrameError::Truncated => step@ is Truncated,
            },
        },
{
}

/// A step of the search for a definition is shown as it is.
pub proof fn definition_step_is_shown(step: DefinitionStep)
    ensures
        match step {
            DefinitionStep::Reply(Some(location)) => step@ == DefinitionStepView::Reply(
                Some(location@),
            ),
            DefinitionStep::Reply(None) => step@ == DefinitionStepView::Reply(None),
            DefinitionStep::Load(n, uri) => step@ == DefinitionStepView::Load(n as int, uri@),
        },
{
}

/// A pair is shown by its rule, its place and the pairs inside it.
pub proof fn pair_is_shown(pair: Pair)
    ensures
        pair@.rule == pair.rule,
        pair@.start == pair.start,
        pair@.end == pair.end,
        pair@.inner.len() == pair.inner@.len(),
        forall|i: int| 0 <= i < pair.inner@.len() ==> #[trigger] pair@.inner[i] == pair.inner@[i]@,
{
    parser::lemma_inner(pair);
}

} // verus!
