//! The headers of the C++ bindings of a Mojom file, and what is looked up in them.
use vstd::prelude::*;

use crate::document_symbol::{Class, DocumentSymbol, InterfaceSymbol, MethodSymbol, SymbolView};
use crate::lsp;
use crate::lsp::{Location, SymbolInformation, SymbolInformationView, SymbolKind};
use crate::text;

verus! {

/// Whether `a` is not behind `b`.
pub open spec fn position_le(a: lsp::Position, b: lsp::Position) -> bool {
    a.line < b.line || (a.line == b.line && a.character <= b.character)
}

/// Whether `a` is before `b`.
fn position_lt(a: &lsp::Position, b: &lsp::Position) -> (r: bool)
    ensures
        r == !position_le(*b, *a),
{
    a.line < b.line || (a.line == b.line && a.character < b.character)
}

/// A header of the C++ bindings and its symbols.
#[derive(Debug)]
pub struct CppBindingHeader {
    pub uri: String,
    pub symbols: Vec<SymbolInformation>,
}

/// The number of the first of `ss` that is a class called `name`.
pub open spec fn first_class(ss: Seq<SymbolInformationView>, name: Seq<char>, from: int) -> Option<
    int,
>
    decreases ss.len() - from,
{
    if from < 0 || from >= ss.len() {
        None
    } else if ss[from].kind == SymbolKind::Class && ss[from].name == name {
        Some(from)
    } else {
        first_class(ss, name, from + 1)
    }
}

/// The classes among `open` that are still open at `start`: the innermost ones that end before
/// it are closed.
pub open spec fn still_open(
    ss: Seq<SymbolInformationView>,
    open: Seq<int>,
    start: lsp::Position,
) -> Seq<int>
    decreases open.len(),
{
    if open.len() == 0 || position_le(start, ss[open.last()].location.range.end) {
        open
    } else {
        still_open(ss, open.drop_last(), start)
    }
}

/// The classes that are open at the symbol with the number `i`, the innermost one last.
pub open spec fn open_at(ss: Seq<SymbolInformationView>, i: int) -> Seq<int>
    decreases i, 0nat,
{
    if i <= 0 {
        Seq::empty()
    } else {
        still_open(ss, open_after(ss, i - 1), ss[i].location.range.start)
    }
}

/// The classes that are open after the symbol with the number `i`.
pub open spec fn open_after(ss: Seq<SymbolInformationView>, i: int) -> Seq<int>
    decreases i, 1nat,
{
    if i < 0 {
        Seq::empty()
    } else if ss[i].kind == SymbolKind::Class {
        open_at(ss, i).push(i)
    } else {
        open_at(ss, i)
    }
}

/// Whether the symbol with the number `i` is a method called `name` right inside a class
/// called `class`.
pub open spec fn is_method_of(
    ss: Seq<SymbolInformationView>,
    i: int,
    class: Seq<char>,
    name: Seq<char>,
) -> bool {
    &&& ss[i].kind == SymbolKind::Method
    &&& ss[i].name == name
    &&& open_at(ss, i).len() > 0
    &&& ss[open_at(ss, i).last()].name == class
}

/// The number of the first symbol from `from` on that is such a method.
pub open spec fn first_method(
    ss: Seq<SymbolInformationView>,
    class: Seq<char>,
    name: Seq<char>,
    from: int,
) -> Option<int>
    decreases ss.len() - from,
{
    if from < 0 || from >= ss.len() {
        None
    } else if is_method_of(ss, from, class, name) {
        Some(from)
    } else {
        first_method(ss, class, name, from + 1)
    }
}

/// `range` with its start five columns to the right, behind the return type `void` of a
/// generated method.
pub open spec fn behind_void(range: lsp::Range) -> lsp::Range {
    lsp::Range {
        start: lsp::Position {
            line: range.start.line,
            character: (range.start.character + 5) as u32,
        },
        end: range.end,
    }
}

impl CppBindingHeader {
    /// What the symbols say.
    pub open spec fn symbol_views(self) -> Seq<SymbolInformationView> {
        lsp::symbol_views(self.symbols@)
    }

    /// Finds the class of an interface.
    pub fn find_interface_symbol(&self, interface: &InterfaceSymbol) -> (r: Option<
        &SymbolInformation,
    >)
        ensures
            match r {
                Some(symbol) => first_class(self.symbol_views(), interface.name@, 0) matches Some(
                    i,
                ) && 0 <= i < self.symbols@.len() && symbol@ == self.symbol_views()[i],
                None => first_class(self.symbol_views(), interface.name@, 0) is None,
            },
    {
        let ghost ss = self.symbol_views();
        let mut i: usize = 0;
        while i < self.symbols.len()
            invariant
                ss == self.symbol_views(),
                i <= self.symbols@.len(),
                first_class(ss, interface.name@, 0) == first_class(ss, interface.name@, i as int),
            decreases self.symbols@.len() - i,
        {
            let symbol = &self.symbols[i];
            proof {
                assert(ss[i as int] == symbol@);
            }
            if symbol.kind == SymbolKind::Class && text::str_eq(
                symbol.name.as_str(),
                interface.name.as_str(),
            ) {
                return Some(symbol);
            }
            i = i + 1;
        }
        None
    }

    /// Finds a method of the class of an interface, and that class.
    pub fn find_method_symbol(&self, method: &MethodSymbol) -> (r: Option<
        (&SymbolInformation, &SymbolInformation),
    >)
        ensures
            match r {
                Some((class, symbol)) => {
                    &&& first_method(
                        self.symbol_views(),
                        method.interface_name@,
                        method.name@,
                        0,
                    ) matches Some(i)
                    &&& 0 <= i < self.symbols@.len()
                    &&& symbol@ == self.symbol_views()[i]
                    &&& class@ == self.symbol_views()[open_at(self.symbol_views(), i).last()]
                },
                None => first_method(
                    self.symbol_views(),
                    method.interface_name@,
                    method.name@,
                    0,
                ) is None,
            },
    {
        let ghost ss = self.symbol_views();
        let ghost class = method.interface_name@;
        let mut stack: Vec<usize> = Vec::new();
        let mut i: usize = 0;
        proof {
            assert(indices(stack@) =~= open_after(ss, -1));
        }
        while i < self.symbols.len()
            invariant
                ss == self.symbol_views(),
                class == method.interface_name@,
                i <= self.symbols@.len(),
                forall|k: int| 0 <= k < stack@.len() ==> #[trigger] stack@[k] < self.symbols@.len(),
                indices(stack@) =~= open_after(ss, i - 1),
                first_method(ss, class, method.name@, 0) == first_method(
                    ss,
                    class,
                    method.name@,
                    i as int,
                ),
            decreases self.symbols@.len() - i,
        {
            let symbol = &self.symbols[i];
            let ghost start = symbol@.location.range.start;
            proof {
                assert(ss[i as int] == symbol@);
                if i == 0 {
                    assert(indices(stack@) =~= Seq::<int>::empty());
                    assert(still_open(ss, indices(stack@), start) =~= open_at(ss, 0));
                }
            }
            self.close_classes(&mut stack, i);
            proof {
                assert(indices(stack@) =~= open_at(ss, i as int));
            }
            if symbol.kind == SymbolKind::Class {
                let ghost open = indices(stack@);
                stack.push(i);
                proof {
                    assert(indices(stack@) =~= open.push(i as int));
                }
            } else if symbol.kind == SymbolKind::Method && text::str_eq(
                symbol.name.as_str(),
                method.name.as_str(),
            ) {
                if stack.len() > 0 {
                    let outer = &self.symbols[stack[stack.len() - 1]];
                    proof {
                        assert(outer@ == ss[open_at(ss, i as int).last()]);
                    }
                    if text::str_eq(outer.name.as_str(), method.interface_name.as_str()) {
                        return Some((outer, symbol));
                    }
                }
            }
            i = i + 1;
        }
        None
    }

    /// Takes the classes off `stack` that end before the symbol with the number `i`.
    fn close_classes(&self, stack: &mut Vec<usize>, i: usize)
        requires
            i < self.symbols@.len(),
            forall|k: int|
                0 <= k < old(stack)@.len() ==> #[trigger] old(stack)@[k] < self.symbols@.len(),
        ensures
            forall|k: int|
                0 <= k < final(stack)@.len() ==> #[trigger] final(stack)@[k] < self.symbols@.len(),
            indices(final(stack)@) == still_open(
                self.symbol_views(),
                indices(old(stack)@),
                self.symbol_views()[i as int].location.range.start,
            ),
    {
        let ghost ss = self.symbol_views();
        let start = self.symbols[i].location.range.start;
        proof {
            assert(ss[i as int].location.range.start == start);
        }
        while stack.len() > 0
            invariant
                ss == self.symbol_views(),
                forall|k: int| 0 <= k < stack@.len() ==> #[trigger] stack@[k] < self.symbols@.len(),
                still_open(ss, indices(stack@), start) == still_open(
                    ss,
                    indices(old(stack)@),
                    start,
                ),
                start == ss[i as int].location.range.start,
            decreases stack@.len(),
        {
            let outer: usize = stack[stack.len() - 1];
            proof {
                assert(indices(stack@).last() == outer);
                assert(ss[outer as int] == self.symbols@[outer as int]@);
                assert(indices(stack@).drop_last() =~= indices(stack@.drop_last()));
            }
            if !position_lt(&self.symbols[outer].location.range.end, &start) {
                return ;
            }
            stack.pop();
        }
    }
}

/// The numbers in `stack`.
pub open spec fn indices(stack: Seq<usize>) -> Seq<int> {
    Seq::new(stack.len(), |k: int| stack[k] as int)
}

/// The class that is found for a method is one that stands before it and does not end before
/// it starts.
pub proof fn found_class_is_open(
    ss: Seq<SymbolInformationView>,
    class: Seq<char>,
    name: Seq<char>,
)
    ensures
        first_method(ss, class, name, 0) matches Some(i) ==> {
            let c = open_at(ss, i).last();
            &&& 0 <= c < i < ss.len()
            &&& ss[c].kind == SymbolKind::Class
            &&& ss[c].name == class
            &&& position_le(ss[i].location.range.start, ss[c].location.range.end)
        },
{
    lemma_first_method(ss, class, name, 0);
    if let Some(i) = first_method(ss, class, name, 0) {
        lemma_open(ss, i);
        lemma_still_open(ss, open_after(ss, i - 1), ss[i].location.range.start);
    }
}

/// The first method is one.
pub(crate) proof fn lemma_first_method(
    ss: Seq<SymbolInformationView>,
    class: Seq<char>,
    name: Seq<char>,
    from: int,
)
    ensures
        first_method(ss, class, name, from) matches Some(i) ==> from <= i < ss.len()
            && is_method_of(ss, i, class, name),
    decreases ss.len() - from,
{
    if 0 <= from < ss.len() {
        lemma_first_method(ss, class, name, from + 1);
    }
}

/// The innermost class that stays open does not end before `start`.
pub(crate) proof fn lemma_still_open(ss: Seq<SymbolInformationView>, open: Seq<int>, start: lsp::Position)
    ensures
        still_open(ss, open, start).len() <= open.len(),
        still_open(ss, open, start) =~= open.take(still_open(ss, open, start).len() as int),
        still_open(ss, open, start).len() > 0 ==> position_le(
            start,
            ss[still_open(ss, open, start).last()].location.range.end,
        ),
    decreases open.len(),
{
    if open.len() > 0 {
        lemma_still_open(ss, open.drop_last(), start);
    }
}

/// What is open at a symbol are classes before it.
pub(crate) proof fn lemma_open(ss: Seq<SymbolInformationView>, i: int)
    ensures
        forall|k: int|
            0 <= k < open_at(ss, i).len() ==> 0 <= #[trigger] open_at(ss, i)[k] < i
                && ss[open_at(ss, i)[k]].kind == SymbolKind::Class,
        forall|k: int|
            0 <= k < open_after(ss, i).len() ==> 0 <= #[trigger] open_after(ss, i)[k] <= i
                && ss[open_after(ss, i)[k]].kind == SymbolKind::Class,
    decreases i,
{
    if i > 0 {
        lemma_open(ss, i - 1);
        lemma_still_open(ss, open_after(ss, i - 1), ss[i].location.range.start);
    }
}

/// Where clangd is asked about something.
#[derive(Debug)]
pub struct TextDocumentPositionParams {
    pub uri: String,
    pub position: lsp::Position,
}

impl CppBindingHeader {
    /// Where the C++ bindings have what `target` stands for: the class of an interface, or the
    /// name of a method behind its return type.
    pub open spec fn symbol_location(self, target: SymbolView) -> Option<lsp::LocationView> {
        let ss = self.symbol_views();
        match target.class {
            Class::Interface => match first_class(ss, target.name, 0) {
                Some(i) => Some(ss[i].location),
                None => None,
            },
            Class::Method(interface_name) => match first_method(
                ss,
                interface_name,
                target.name,
                0,
            ) {
                Some(i) => Some(
                    lsp::LocationView {
                        uri: ss[i].location.uri,
                        range: behind_void(ss[i].location.range),
                    },
                ),
                None => None,
            },
            _ => None,
        }
    }

    /// Whether the name of the method that `target` stands for is at a column that can be
    /// counted.
    pub open spec fn column_fits(self, target: SymbolView) -> bool {
        target.class matches Class::Method(interface_name) ==> (first_method(
            self.symbol_views(),
            interface_name,
            target.name,
            0,
        ) matches Some(i) ==> self.symbol_views()[i].location.range.start.character + 5
            <= u32::MAX)
    }

    /// Whether the name of the method that `target` stands for is at a column that can be
    /// counted, so that [`CppBindingHeader::find_symbol_location`] can be asked for.
    pub fn has_column(&self, target: &DocumentSymbol) -> (r: bool)
        ensures
            r == self.column_fits(target@),
    {
        match target {
            DocumentSymbol::Method(method) => match self.find_method_symbol(method) {
                Some((_, symbol)) => symbol.location.range.start.character <= u32::MAX - 5,
                None => true,
            },
            _ => true,
        }
    }

    /// Finds where the C++ bindings have what `target` stands for.
    pub fn find_symbol_location(&self, target: &DocumentSymbol) -> (r: Option<Location>)
        requires
            self.column_fits(target@),
        ensures
            match r {
                Some(location) => self.symbol_location(target@) == Some(location@),
                None => self.symbol_location(target@) is None,
            },
    {
        match target {
            DocumentSymbol::Interface(interface) => match self.find_interface_symbol(interface) {
                Some(symbol) => Some(symbol.location.copy()),
                None => None,
            },
            DocumentSymbol::Method(method) => match self.find_method_symbol(method) {
                Some((_, symbol)) => {
                    let mut location = symbol.location.copy();
                    // The location starts with the return type, not with the name of the
                    // method, but clangd asks for the name. The return type of generated
                    // methods is always `void`.
                    location.range.start.character = location.range.start.character + 5;
                    Some(location)
                },
                None => None,
            },
            _ => None,
        }
    }

    /// Where clangd is asked about what `target` stands for.
    pub fn create_text_document_position_params(&self, target: &DocumentSymbol) -> (r: Option<
        TextDocumentPositionParams,
    >)
        requires
            self.column_fits(target@),
        ensures
            match r {
                Some(params) => {
                    &&& params.uri@ == self.uri@
                    &&& self.symbol_location(target@) matches Some(location)
                    &&& params.position == location.range.start
                },
                None => self.symbol_location(target@) is None,
            },
    {
        match self.find_symbol_location(target) {
            Some(location) => Some(
                TextDocumentPositionParams {
                    uri: self.uri.clone(),
                    position: location.range.start,
                },
            ),
            None => None,
        }
    }
}

/// The path in a URI, where it is one.
pub uninterp spec fn uri_path(uri: Seq<char>) -> Option<Seq<char>>;

/// `lsp_types::Url::parse` and `lsp_types::Url::path`.
///
/// The path depends on the URI and on nothing else, and there is none where the URI cannot be
/// parsed. What the path is is not stated.
#[verifier::external_body]
fn url_path(uri: &str) -> (r: Option<String>)
    ensures
        lsp::option_view(r) == uri_path(uri@),
{
    lsp_types::Url::parse(uri).ok().map(|url| url.path().to_string())
}

/// Whether a file with this path was generated from a Mojom file.
pub open spec fn generated_path(path: Seq<char>) -> bool {
    text::occurs_in("/gen/"@, path) && text::occurs_in("mojom"@, path)
}

/// Whether a file with this path was generated from a Mojom file.
pub fn is_generated_path(path: &str) -> (r: bool)
    ensures
        r == generated_path(path@),
{
    text::contains(path, "/gen/") && text::contains(path, "mojom")
}

/// Whether the file at `uri` was generated from a Mojom file.
pub open spec fn mojom_generated(uri: Seq<char>) -> bool {
    uri_path(uri) matches Some(path) && generated_path(path)
}

/// Whether the file at `uri` was generated from a Mojom file.
pub fn is_mojom_generated(uri: &str) -> (r: bool)
    ensures
        r == mojom_generated(uri@),
{
    match url_path(uri) {
        Some(path) => is_generated_path(path.as_str()),
        None => false,
    }
}

/// The locations in `ls` outside files that were generated from Mojom files.
pub open spec fn not_generated(ls: Seq<lsp::LocationView>) -> Seq<lsp::LocationView>
    decreases ls.len(),
{
    if ls.len() == 0 {
        Seq::empty()
    } else if mojom_generated(ls.last().uri) {
        not_generated(ls.drop_last())
    } else {
        not_generated(ls.drop_last()).push(ls.last())
    }
}

/// What is left out is exactly what was generated: nothing that was generated stays, and
/// everything else does.
pub proof fn only_generated_is_left_out(ls: Seq<lsp::LocationView>)
    ensures
        forall|l: lsp::LocationView| #[trigger]
            not_generated(ls).contains(l) <==> ls.contains(l) && !mojom_generated(l.uri),
    decreases ls.len(),
{
    if ls.len() > 0 {
        let front = ls.drop_last();
        let kept = not_generated(front);
        only_generated_is_left_out(front);
        assert(ls =~= front.push(ls.last()));
        assert forall|l: lsp::LocationView| #[trigger]
            not_generated(ls).contains(l) <==> ls.contains(l) && !mojom_generated(l.uri) by {
            vstd::seq_lib::lemma_seq_contains_after_push(front, ls.last(), l);
            vstd::seq_lib::lemma_seq_contains_after_push(kept, ls.last(), l);
            assert(kept.contains(l) <==> front.contains(l) && !mojom_generated(l.uri));
        }
    }
}

/// Leaves out the locations in files that were generated from Mojom files.
pub fn retain_not_generated(locations: Vec<Location>) -> (r: Vec<Location>)
    ensures
        lsp::location_views(r@) == not_generated(lsp::location_views(locations@)),
{
    let mut out: Vec<Location> = Vec::new();
    let ghost all = lsp::location_views(locations@);
    let mut i: usize = 0;
    while i < locations.len()
        invariant
            all == lsp::location_views(locations@),
            i <= locations@.len(),
            lsp::location_views(out@) =~= not_generated(all.take(i as int)),
        decreases locations@.len() - i,
    {
        let ghost so_far = out@;
        let location = &locations[i];
        proof {
            assert(all.take(i + 1).drop_last() =~= all.take(i as int));
            assert(all.take(i + 1).last() == location@);
        }
        if !is_mojom_generated(location.uri.as_str()) {
            out.push(location.copy());
            proof {
                assert(lsp::location_views(out@) =~= lsp::location_views(so_far).push(location@));
            }
        }
        i = i + 1;
    }
    proof {
        assert(all.take(i as int) =~= all);
    }
    out
}

/// What clangd answers to a question for implementations.
#[derive(Debug)]
pub enum GotoImplementationResponse {
    Scalar(Location),
    Array(Vec<Location>),
}

/// Leaves out the implementations in files that were generated from Mojom files. Nothing is
/// left of a single one in such a file.
pub fn filter_implementations(response: GotoImplementationResponse) -> (r: Option<Vec<Location>>)
    ensures
        match response {
            GotoImplementationResponse::Array(locations) => r matches Some(kept)
                && lsp::location_views(kept@) == not_generated(lsp::location_views(locations@)),
            GotoImplementationResponse::Scalar(location) => if mojom_generated(location.uri@) {
                r is None
            } else {
                r matches Some(kept) && kept@ == seq![location]
            },
        },
{
    match response {
        GotoImplementationResponse::Array(locations) => Some(retain_not_generated(locations)),
        GotoImplementationResponse::Scalar(location) => {
            if is_mojom_generated(location.uri.as_str()) {
                return None;
            }
            let mut kept: Vec<Location> = Vec::new();
            kept.push(location);
            Some(kept)
        },
    }
}

/// The locations that are found in the headers of the C++ bindings, one header after the other.
#[derive(Debug)]
pub struct FoundLocations {
    pub all: Vec<Location>,
}

impl FoundLocations {
    /// None yet.
    pub fn new() -> (r: FoundLocations)
        ensures
            r.all@.len() == 0,
    {
        FoundLocations { all: Vec::new() }
    }

    /// Adds what was found in a header, if anything.
    pub fn include_header(&mut self, found: Option<Vec<Location>>)
        ensures
            final(self).all@ == old(self).all@ + (match found {
                Some(locations) => locations@,
                None => Seq::empty(),
            }),
    {
        if let Some(locations) = found {
            let mut locations = locations;
            self.all.append(&mut locations);
        } else {
            proof {
                assert(self.all@ + Seq::<Location>::empty() =~= self.all@);
            }
        }
    }

    /// What was found in all headers, or that there is nothing.
    pub fn finish(self) -> (r: Option<Vec<Location>>)
        ensures
            match r {
                Some(all) => all@ == self.all@ && all@.len() > 0,
                None => self.all@.len() == 0,
            },
    {
        if self.all.len() == 0 {
            None
        } else {
            Some(self.all)
        }
    }
}

/// The headers of the C++ bindings of the Mojom file at `mojom_uri`.
#[derive(Debug)]
pub struct CppBindings {
    pub mojom_uri: String,
    pub bindings: Vec<CppBindingHeader>,
}

/// The paths of the two headers that are generated from the Mojom file at `mojom_path`.
#[derive(Debug)]
pub struct HeaderPaths {
    pub non_blink: String,
    pub blink: String,
}

/// The paths of the headers: the path of the Mojom file below the directory for generated
/// files in place of the root directory, with what the generator puts behind it.
pub fn header_paths(mojom_path: &str, root_path: &str, gen_path: &str) -> (r: HeaderPaths)
    ensures
        r.non_blink@ == text::replaced(mojom_path@, root_path@, gen_path@) + ".h"@,
        r.blink@ == text::replaced(mojom_path@, root_path@, gen_path@) + "-blink.h"@,
{
    let base_path = text::replace(mojom_path, root_path, gen_path);
    let mut non_blink = base_path.clone();
    non_blink.append(".h");
    let mut blink = base_path;
    blink.append("-blink.h");
    HeaderPaths { non_blink, blink }
}

/// The paths of the headers that are generated from the Mojom file at `mojom_uri`. There are
/// none where that is no URI.
pub fn binding_header_paths(mojom_uri: &str, root_path: &str, gen_path: &str) -> (r: Option<
    HeaderPaths,
>)
    ensures
        match r {
            Some(paths) => {
                &&& uri_path(mojom_uri@) matches Some(path)
                &&& paths.non_blink@ == text::replaced(path, root_path@, gen_path@) + ".h"@
                &&& paths.blink@ == text::replaced(path, root_path@, gen_path@) + "-blink.h"@
            },
            None => uri_path(mojom_uri@) is None,
        },
{
    match url_path(mojom_uri) {
        Some(path) => Some(header_paths(path.as_str(), root_path, gen_path)),
        None => None,
    }
}

/// A document to be opened in clangd.
#[derive(Debug)]
pub struct TextDocumentItem {
    pub uri: String,
    pub language_id: String,
    pub version: i32,
    pub text: String,
}

/// The document for a header.
pub fn header_document(uri: String, text: String) -> (r: TextDocumentItem)
    ensures
        r.uri@ == uri@,
        r.language_id@ == "cpp"@,
        r.version == 1,
        r.text@ == text@,
{
    TextDocumentItem { uri, language_id: "cpp".to_owned(), version: 1, text }
}

/// A header with the symbols that clangd has for it, if it has any.
pub fn opened_header(uri: String, symbols: Option<Vec<SymbolInformation>>) -> (r: CppBindingHeader)
    ensures
        r.uri@ == uri@,
        r.symbols@ == (match symbols {
            Some(found) => found@,
            None => Seq::empty(),
        }),
{
    match symbols {
        Some(found) => CppBindingHeader { uri, symbols: found },
        None => CppBindingHeader { uri, symbols: Vec::new() },
    }
}

/// What has to be done before the headers of a Mojom file can be asked about.
#[derive(Debug)]
pub enum EnsureAction {
    /// Nothing: they are open.
    Ready,
    /// The headers at these URIs have to be closed, and then those of the file opened.
    Reopen(Vec<String>),
}

/// The headers that are open in clangd.
#[derive(Debug)]
pub struct OpenBindings {
    pub bindings: Option<CppBindings>,
}

/// The URIs of `headers`.
pub open spec fn header_uris(headers: Seq<CppBindingHeader>) -> Seq<Seq<char>> {
    Seq::new(headers.len(), |i: int| headers[i].uri@)
}

impl OpenBindings {
    /// No headers.
    pub fn new() -> (r: OpenBindings)
        ensures
            r.bindings is None,
    {
        OpenBindings { bindings: None }
    }

    /// Whether the headers of the Mojom file at `uri` are open.
    pub open spec fn is_open(self, uri: Seq<char>) -> bool {
        self.bindings matches Some(b) && b.mojom_uri@ == uri
    }

    /// Finds out what has to be done before the headers of the Mojom file at `mojom_uri` can be
    /// asked about. Headers that have to be closed are forgotten.
    pub fn ensure_binding_headers(&mut self, mojom_uri: &str) -> (r: EnsureAction)
        ensures
            match r {
                EnsureAction::Ready => old(self).is_open(mojom_uri@) && *final(self) == *old(self),
                EnsureAction::Reopen(closed) => {
                    &&& !old(self).is_open(mojom_uri@)
                    &&& final(self).bindings is None
                    &&& text::strings(closed@) == (match old(self).bindings {
                        Some(b) => header_uris(b.bindings@),
                        None => Seq::empty(),
                    })
                },
            },
    {
        if let Some(cached) = &self.bindings {
            if text::str_eq(cached.mojom_uri.as_str(), mojom_uri) {
                return EnsureAction::Ready;
            }
        }
        EnsureAction::Reopen(self.drop_binding_headers())
    }

    /// Forgets the headers and gives the URIs that have to be closed.
    pub fn drop_binding_headers(&mut self) -> (closed: Vec<String>)
        ensures
            final(self).bindings is None,
            text::strings(closed@) == (match old(self).bindings {
                Some(b) => header_uris(b.bindings@),
                None => Seq::empty(),
            }),
    {
        let taken = self.bindings.take();
        let mut closed: Vec<String> = Vec::new();
        if let Some(taken) = &taken {
            let mut i: usize = 0;
            while i < taken.bindings.len()
                invariant
                    i <= taken.bindings@.len(),
                    text::strings(closed@) =~= header_uris(taken.bindings@).take(i as int),
                decreases taken.bindings@.len() - i,
            {
                let ghost so_far = closed@;
                closed.push(taken.bindings[i].uri.clone());
                proof {
                    assert(text::strings(closed@) =~= text::strings(so_far).push(
                        taken.bindings@[i as int].uri@,
                    ));
                }
                i = i + 1;
            }
        }
        proof {
            if old(self).bindings is None {
                assert(text::strings(closed@) =~= Seq::empty());
            }
        }
        closed
    }

    /// Takes the headers of a Mojom file that could be opened.
    pub fn opened(
        &mut self,
        mojom_uri: String,
        non_blink: Option<CppBindingHeader>,
        blink: Option<CppBindingHeader>,
    )
        ensures
            final(self).is_open(mojom_uri@),
            final(self).bindings matches Some(b) && b.bindings@ == optional_header(non_blink)
                + optional_header(blink),
    {
        let mut bindings: Vec<CppBindingHeader> = Vec::new();
        if let Some(header) = non_blink {
            bindings.push(header);
        }
        if let Some(header) = blink {
            bindings.push(header);
        }
        proof {
            assert(bindings@ =~= optional_header(non_blink) + optional_header(blink));
        }
        self.bindings = Some(CppBindings { mojom_uri, bindings });
    }
}

/// The header that is there.
pub open spec fn optional_header(h: Option<CppBindingHeader>) -> Seq<CppBindingHeader> {
    match h {
        Some(header) => seq![header],
        None => Seq::empty(),
    }
}

} // verus!
