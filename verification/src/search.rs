//! The search for a definition, from the request to the reply.
use vstd::prelude::*;

use crate::laws;
use crate::lsp;
use crate::text;
use crate::uri_map::UriMap;
use crate::workspace;
use crate::workspace::{DefinitionStepView, ParsedSymbols, Workspace};

verus! {

/// The symbols of the document at `uri`: those that are known, or else those that `load` gives,
/// if it can be read.
pub open spec fn known_or_loaded(
    symbols: UriMap<ParsedSymbols>,
    load: spec_fn(Seq<char>) -> Option<ParsedSymbols>,
    uri: Seq<char>,
) -> Option<ParsedSymbols> {
    match symbols.at(uri) {
        Some(parsed) => Some(parsed),
        None => load(uri),
    }
}

/// The definition of `ident` in the first of the imports at `uris`, from number `next` on, that
/// has one. An import that is not known and cannot be read is passed over.
pub open spec fn first_definition(
    symbols: UriMap<ParsedSymbols>,
    load: spec_fn(Seq<char>) -> Option<ParsedSymbols>,
    uris: Seq<Seq<char>>,
    ident: Seq<char>,
    next: int,
) -> Option<lsp::LocationView>
    decreases uris.len() - next,
{
    if next < 0 || next >= uris.len() {
        None
    } else {
        let definition = match known_or_loaded(symbols, load, uris[next]) {
            Some(parsed) => parsed.definition(ident),
            None => None,
        };
        match definition {
            Some(range) => Some(lsp::LocationView { uri: uris[next], range }),
            None => first_definition(symbols, load, uris, ident, next + 1),
        }
    }
}

/// Where what stands at `position` of the document at `uri` is defined: where the import there
/// leads, or else in the document itself, or else in the first import that defines it.
pub open spec fn definition(
    ws: Workspace,
    load: spec_fn(Seq<char>) -> Option<ParsedSymbols>,
    uri: Seq<char>,
    position: lsp::Position,
    import: Option<Seq<char>>,
) -> Option<lsp::LocationView> {
    match ws.parsed_files.at(uri) {
        None => None,
        Some(parsed) => match import {
            Some(target) => Some(
                lsp::LocationView { uri: target, range: workspace::document_start() },
            ),
            None => {
                let ident = parsed.ast.identifier(position);
                match parsed.ast.definition(ident) {
                    Some(range) => Some(lsp::LocationView { uri, range }),
                    None => first_definition(
                        ws.symbols,
                        load,
                        text::strings(parsed.import_uris@),
                        ident,
                        0,
                    ),
                }
            },
        },
    }
}

/// A search: the workspace and the number of the import to go on with, before each step.
pub struct Search {
    pub uri: Seq<char>,
    pub position: lsp::Position,
    pub import: Option<Seq<char>>,
    pub states: Seq<(Workspace, int)>,
}

impl Search {
    /// What the step with the number `i` comes to.
    pub open spec fn step(self, i: int) -> DefinitionStepView {
        let state = self.states[i];
        state.0.definition_step(self.uri, self.position, self.import, state.1)
    }

    /// Whether the search starts with the first import and every step but the last one asks for
    /// an import and takes what `load` gives for it.
    pub open spec fn is_driven_by(self, load: spec_fn(Seq<char>) -> Option<ParsedSymbols>) -> bool {
        &&& self.states.len() > 0
        &&& self.states[0].1 == 0
        &&& forall|i: int|
            0 <= i < self.states.len() - 1 ==> (#[trigger] self.step(i) matches
                DefinitionStepView::Load(n, uri) && self.states[i].0.takes_import(
                self.states[i + 1].0,
                n,
                uri,
                load(uri),
                self.states[i + 1].1,
            ))
    }

    /// The number of imports of the document.
    pub open spec fn imports(self) -> nat {
        match self.states[0].0.parsed_files.at(self.uri) {
            Some(parsed) => parsed.import_uris@.len(),
            None => 0,
        }
    }
}

/// What is known or can be loaded stays the same when something is loaded.
proof fn lemma_same_known(
    a: UriMap<ParsedSymbols>,
    b: UriMap<ParsedSymbols>,
    load: spec_fn(Seq<char>) -> Option<ParsedSymbols>,
    uris: Seq<Seq<char>>,
    ident: Seq<char>,
    next: int,
)
    requires
        forall|uri: Seq<char>| #[trigger]
            known_or_loaded(a, load, uri) == known_or_loaded(b, load, uri),
    ensures
        first_definition(a, load, uris, ident, next) == first_definition(
            b,
            load,
            uris,
            ident,
            next,
        ),
    decreases uris.len() - next,
{
    if 0 <= next < uris.len() {
        assert(known_or_loaded(a, load, uris[next]) == known_or_loaded(b, load, uris[next]));
        lemma_same_known(a, b, load, uris, ident, next + 1);
    }
}

/// The imports that a search passes by before it stops do not count.
proof fn lemma_passed_by(
    symbols: UriMap<ParsedSymbols>,
    load: spec_fn(Seq<char>) -> Option<ParsedSymbols>,
    uris: Seq<Seq<char>>,
    ident: Seq<char>,
    next: int,
)
    requires
        0 <= next,
    ensures
        match workspace::search_imports(symbols, uris, ident, next) {
            DefinitionStepView::Reply(r) => r == first_definition(
                symbols,
                load,
                uris,
                ident,
                next,
            ),
            DefinitionStepView::Load(n, _) => first_definition(symbols, load, uris, ident, next)
                == first_definition(symbols, load, uris, ident, n),
        },
    decreases uris.len() - next,
{
    if next < uris.len() {
        lemma_passed_by(symbols, load, uris, ident, next + 1);
    }
}

/// What does not change up to the step with the number `i`.
spec fn goes_on(s: Search, load: spec_fn(Seq<char>) -> Option<ParsedSymbols>, i: int) -> bool {
    let first = s.states[0].0;
    let state = s.states[i];
    &&& state.0.parsed_files == first.parsed_files
    &&& state.1 >= 0
    &&& i > 0 ==> s.step(0) is Load
    &&& s.step(i) matches DefinitionStepView::Load(n, _) ==> n >= i
    &&& first.parsed_files.at(s.uri) matches Some(parsed) ==> {
        let uris = text::strings(parsed.import_uris@);
        let ident = parsed.ast.identifier(s.position);
        first_definition(state.0.symbols, load, uris, ident, state.1) == first_definition(
            first.symbols,
            load,
            uris,
            ident,
            0,
        )
    }
}

proof fn lemma_goes_on(s: Search, load: spec_fn(Seq<char>) -> Option<ParsedSymbols>, i: int)
    requires
        s.is_driven_by(load),
        0 <= i < s.states.len(),
    ensures
        goes_on(s, load, i),
    decreases i,
{
    let first = s.states[0].0;
    let state = s.states[i];
    if i == 0 {
        if let Some(parsed) = first.parsed_files.at(s.uri) {
            let uris = text::strings(parsed.import_uris@);
            let ident = parsed.ast.identifier(s.position);
            laws::lemma_load_from(first.symbols, uris, ident, 0);
        }
    } else {
        lemma_goes_on(s, load, i - 1);
        let before = s.states[i - 1];
        assert(s.step(i - 1) is Load);
        let parsed = first.parsed_files.at(s.uri)->0;
        let uris = text::strings(parsed.import_uris@);
        let ident = parsed.ast.identifier(s.position);
        let n = s.step(i - 1)->Load_0;
        let uri = s.step(i - 1)->Load_1;
        assert(s.step(i - 1) == workspace::search_imports(
            before.0.symbols,
            uris,
            ident,
            before.1,
        ));
        laws::lemma_load_from(before.0.symbols, uris, ident, before.1);
        lemma_passed_by(before.0.symbols, load, uris, ident, before.1);
        assert forall|u: Seq<char>| #[trigger]
            known_or_loaded(before.0.symbols, load, u) == known_or_loaded(
                state.0.symbols,
                load,
                u,
            ) by {
            if u != uri {
                assert(state.0.symbols.at(u) == before.0.symbols.at(u));
            }
        }
        lemma_same_known(before.0.symbols, state.0.symbols, load, uris, ident, n);
        laws::search_makes_progress(state.0.symbols, uris, ident, n);
    }
}

/// A search gives the definition in the first place that has one: where the import leads, the
/// document itself, and then its imports in their order, by their symbols as they were known or
/// as they are loaded. Imports that cannot be loaded are passed over. The search ends: it asks
/// for an import at most as often as the document has imports.
pub proof fn search_gives_the_definition(
    s: Search,
    load: spec_fn(Seq<char>) -> Option<ParsedSymbols>,
)
    requires
        s.is_driven_by(load),
    ensures
        s.step(s.states.len() - 1) matches DefinitionStepView::Reply(r) ==> r == definition(
            s.states[0].0,
            load,
            s.uri,
            s.position,
            s.import,
        ),
        s.states.len() <= s.imports() + 1,
        s.states.len() == s.imports() + 1 ==> s.step(s.states.len() - 1) is Reply,
{
    let last = s.states.len() - 1;
    lemma_goes_on(s, load, last);
    let first = s.states[0].0;
    let state = s.states[last];
    if let Some(parsed) = first.parsed_files.at(s.uri) {
        let uris = text::strings(parsed.import_uris@);
        let ident = parsed.ast.identifier(s.position);
        lemma_passed_by(state.0.symbols, load, uris, ident, state.1);
        laws::lemma_load_from(state.0.symbols, uris, ident, state.1);
    }
    if last > 0 {
        lemma_goes_on(s, load, last - 1);
        let before = s.states[last - 1];
        assert(s.step(last - 1) is Load);
        let parsed = first.parsed_files.at(s.uri)->0;
        let uris = text::strings(parsed.import_uris@);
        laws::lemma_load_from(
            before.0.symbols,
            uris,
            parsed.ast.identifier(s.position),
            before.1,
        );
    }
}

} // verus!
