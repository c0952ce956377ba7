//! What requests and notifications ask for, and what they are answered.
use vstd::prelude::*;

use crate::diagnostic;
use crate::diagnostic::Diagnostic;
use crate::document;
use crate::joined;
use crate::lsp;
use crate::mojomast;
use crate::moved;
use crate::places;
use crate::server;
use crate::syntax::{Interface, InterfaceMember, Module, Statement, Struct, StructBody};
use crate::text;
use crate::traversal;
use crate::traversal::Traversal;
use crate::uri_map;
use crate::uri_map::UriMap;
use crate::workspace;
use crate::workspace::{
    DefinitionStepView, EntryAction, NotificationKind, ParsedSymbols, RequestKind, Workspace,
};

verus! {

/// Whether `::` stands nowhere in the UTF-8 text `s`.
pub open spec fn is_one_part(s: Seq<u8>) -> bool {
    forall|i: int| 0 <= i && i + 1 < s.len() && #[trigger] s[i] == 0x3a ==> s[i + 1] != 0x3a
}

proof fn lemma_first_separator(s: Seq<u8>, pos: int, k: int)
    requires
        0 <= pos <= k <= s.len(),
        k == s.len() || (k + 1 < s.len() && s[k] == 0x3a && s[k + 1] == 0x3a),
        forall|i: int|
            pos <= i < k && i + 1 < s.len() && #[trigger] s[i] == 0x3a ==> s[i + 1] != 0x3a,
    ensures
        text::next_separator(s, pos) == k,
    decreases k - pos,
{
    if pos < k && pos + 2 <= s.len() {
        lemma_first_separator(s, pos + 1, k);
    }
}

proof fn lemma_separator_moved(s: Seq<u8>, t: Seq<u8>, k: nat, pos: int)
    requires
        moved::is_behind(s, t, k),
        0 <= pos,
    ensures
        text::next_separator(t, pos + k) == text::next_separator(s, pos) + k,
    decreases s.len() - pos,
{
    if pos + 2 <= s.len() {
        assert(s[pos] == t[pos + k] && s[pos + 1] == t[pos + 1 + k]);
        lemma_separator_moved(s, t, k, pos + 1);
    }
}

proof fn lemma_separator_inside(s: Seq<u8>, pos: int)
    requires
        0 <= pos <= s.len(),
    ensures
        pos <= text::next_separator(s, pos) <= s.len(),
        text::next_separator(s, pos) < s.len() ==> text::next_separator(s, pos) + 2 <= s.len(),
    decreases s.len() - pos,
{
    if pos + 2 <= s.len() {
        lemma_separator_inside(s, pos + 1);
    }
}

proof fn lemma_last_part_moved(s: Seq<u8>, t: Seq<u8>, k: nat, pos: int)
    requires
        moved::is_behind(s, t, k),
        0 <= pos <= s.len(),
    ensures
        text::last_part(t, pos + k) == (match text::last_part(s, pos) {
            Some(p) => Some((p.0 + k, p.1 + k)),
            None => None,
        }),
        text::last_part(s, pos) matches Some(p) ==> pos <= p.0 < p.1 <= s.len(),
    decreases s.len() - pos,
{
    lemma_separator_moved(s, t, k, pos);
    lemma_separator_inside(s, pos);
    let end = text::next_separator(s, pos);
    if end < s.len() {
        lemma_last_part_moved(s, t, k, end + 2);
    }
}

/// A query in which `::` does not stand names itself, and an empty query names nothing.
pub proof fn plain_query_names_itself(query: Seq<char>)
    requires
        is_one_part(text::utf8(query)),
    ensures
        query.len() > 0 ==> workspace::query_target(query) == Some(query),
        query.len() == 0 ==> workspace::query_target(query) is None,
{
    let s = text::utf8(query);
    let none = Seq::<char>::empty();
    lemma_first_separator(s, 0, s.len() as int);
    text::lemma_utf8_len(query);
    assert(none + query + none =~= query);
    assert(text::utf8(none).len() == 0);
    places::part_is_what_stands_there(none, query, none);
    if query.len() == 0 {
        assert(query =~= none);
    }
}

/// A query with `::` in it, after a part `a` in which it does not stand yet, names what the rest
/// names. Where the rest names nothing the query names `a`, if that is anything.
pub proof fn query_names_its_last_part(a: Seq<char>, b: Seq<char>)
    requires
        is_one_part(text::utf8(a)),
        a.len() > 0 ==> text::utf8(a).last() != 0x3a,
    ensures
        workspace::query_target(a + seq![':', ':'] + b) == (match workspace::query_target(b) {
            Some(name) => Some(name),
            None => if a.len() > 0 {
                Some(a)
            } else {
                None
            },
        }),
{
    let m = seq![':', ':'];
    let query = a + m + b;
    let s = text::utf8(query);
    let x = text::utf8(a);
    let z = text::utf8(b);
    let none = Seq::<char>::empty();
    assert(vstd::utf8::is_ascii_chars(m));
    vstd::utf8::is_ascii_chars_encode_utf8(m);
    joined::lemma_utf8_append(a, m);
    joined::lemma_utf8_append(a + m, b);
    assert(text::utf8(m)[0] == 0x3a && text::utf8(m)[1] == 0x3a);
    assert(s =~= x + text::utf8(m) + z);
    let k = x.len() + 2;
    assert(moved::is_behind(z, s, k));
    text::lemma_utf8_len(a);
    if a.len() == 0 {
        assert(a =~= none);
        assert(text::utf8(none).len() == 0);
    }
    assert forall|i: int|
        0 <= i < x.len() && i + 1 < s.len() && #[trigger] s[i] == 0x3a implies s[i + 1] != 0x3a by {
        assert(s[i] == x[i]);
        if i + 1 < x.len() {
            assert(s[i + 1] == x[i + 1]);
        }
    }
    lemma_first_separator(s, 0, x.len() as int);
    lemma_last_part_moved(z, s, k, 0);
    match text::last_part(z, 0) {
        Some(p) => {
            assert(s.subrange(p.0 + k, p.1 + k) =~= z.subrange(p.0, p.1));
        },
        None => {
            assert(none + a + (m + b) =~= query);
            assert(text::utf8(none).len() == 0);
            places::part_is_what_stands_there(none, a, m + b);
        },
    }
}

/// A request is taken for what its method is called in the protocol, and no other method
/// stands for it.
pub proof fn requests_by_their_methods(method: Seq<char>)
    ensures
        workspace::request_kind(method) == RequestKind::GotoDefinition <==> method == seq![
            't', 'e', 'x', 't', 'D', 'o', 'c', 'u', 'm', 'e', 'n', 't', '/', 'd', 'e', 'f', 'i',
            'n', 'i', 't', 'i', 'o', 'n',
        ],
        workspace::request_kind(method) == RequestKind::GotoImplementation <==> method == seq![
            't', 'e', 'x', 't', 'D', 'o', 'c', 'u', 'm', 'e', 'n', 't', '/', 'i', 'm', 'p', 'l',
            'e', 'm', 'e', 'n', 't', 'a', 't', 'i', 'o', 'n',
        ],
        workspace::request_kind(method) == RequestKind::References <==> method == seq![
            't', 'e', 'x', 't', 'D', 'o', 'c', 'u', 'm', 'e', 'n', 't', '/', 'r', 'e', 'f', 'e',
            'r', 'e', 'n', 'c', 'e', 's',
        ],
        workspace::request_kind(method) == RequestKind::WorkspaceSymbol <==> method == seq![
            'w', 'o', 'r', 'k', 's', 'p', 'a', 'c', 'e', '/', 's', 'y', 'm', 'b', 'o', 'l',
        ],
        workspace::request_kind(method) == RequestKind::DocumentSymbol <==> method == seq![
            't', 'e', 'x', 't', 'D', 'o', 'c', 'u', 'm', 'e', 'n', 't', '/', 'd', 'o', 'c', 'u',
            'm', 'e', 'n', 't', 'S', 'y', 'm', 'b', 'o', 'l',
        ],
{
    reveal_strlit("textDocument/definition");
    reveal_strlit("textDocument/implementation");
    reveal_strlit("textDocument/references");
    reveal_strlit("workspace/symbol");
    reveal_strlit("textDocument/documentSymbol");
    assert("textDocument/definition"@ =~= seq![
        't', 'e', 'x', 't', 'D', 'o', 'c', 'u', 'm', 'e', 'n', 't', '/', 'd', 'e', 'f', 'i', 'n',
        'i', 't', 'i', 'o', 'n',
    ]);
    assert("textDocument/implementation"@ =~= seq![
        't', 'e', 'x', 't', 'D', 'o', 'c', 'u', 'm', 'e', 'n', 't', '/', 'i', 'm', 'p', 'l', 'e',
        'm', 'e', 'n', 't', 'a', 't', 'i', 'o', 'n',
    ]);
    assert("textDocument/references"@ =~= seq![
        't', 'e', 'x', 't', 'D', 'o', 'c', 'u', 'm', 'e', 'n', 't', '/', 'r', 'e', 'f', 'e', 'r',
        'e', 'n', 'c', 'e', 's',
    ]);
    assert("workspace/symbol"@ =~= seq![
        'w', 'o', 'r', 'k', 's', 'p', 'a', 'c', 'e', '/', 's', 'y', 'm', 'b', 'o', 'l',
    ]);
    assert("textDocument/documentSymbol"@ =~= seq![
        't', 'e', 'x', 't', 'D', 'o', 'c', 'u', 'm', 'e', 'n', 't', '/', 'd', 'o', 'c', 'u', 'm',
        'e', 'n', 't', 'S', 'y', 'm', 'b', 'o', 'l',
    ]);
    assert("textDocument/definition"@[13] != "textDocument/references"@[13]);
    assert("textDocument/implementation"@[13] != "textDocument/documentSymbol"@[13]);
}

/// A notification is taken for what its method is called in the protocol, and no other method
/// stands for it.
pub proof fn notifications_by_their_methods(method: Seq<char>)
    ensures
        workspace::notification_kind(method) == NotificationKind::DidOpenTextDocument <==> method
            == seq![
                't', 'e', 'x', 't', 'D', 'o', 'c', 'u', 'm', 'e', 'n', 't', '/', 'd', 'i', 'd', 'O',
                'p', 'e', 'n',
            ],
        workspace::notification_kind(method) == NotificationKind::DidChangeTextDocument <==> method
            == seq![
                't', 'e', 'x', 't', 'D', 'o', 'c', 'u', 'm', 'e', 'n', 't', '/', 'd', 'i', 'd', 'C',
                'h', 'a', 'n', 'g', 'e',
            ],
        workspace::notification_kind(method) == NotificationKind::DidCloseTextDocument <==> method
            == seq![
                't', 'e', 'x', 't', 'D', 'o', 'c', 'u', 'm', 'e', 'n', 't', '/', 'd', 'i', 'd', 'C',
                'l', 'o', 's', 'e',
            ],
        workspace::notification_kind(method) == NotificationKind::Ignored <==> {
            ||| method == seq![
                '$', '/', 'c', 'a', 'n', 'c', 'e', 'l', 'R', 'e', 'q', 'u', 'e', 's', 't',
            ]
            ||| method == seq!['$', '/', 's', 'e', 't', 'T', 'r', 'a', 'c', 'e']
            ||| method == seq!['$', '/', 'l', 'o', 'g', 'T', 'r', 'a', 'c', 'e']
            ||| method == seq![
                'w', 'o', 'r', 'k', 's', 'p', 'a', 'c', 'e', '/', 'd', 'i', 'd', 'C', 'h', 'a',
                'n', 'g', 'e', 'C', 'o', 'n', 'f', 'i', 'g', 'u', 'r', 'a', 't', 'i', 'o', 'n',
            ]
            ||| method == seq![
                't', 'e', 'x', 't', 'D', 'o', 'c', 'u', 'm', 'e', 'n', 't', '/', 'w', 'i', 'l',
                'l', 'S', 'a', 'v', 'e',
            ]
            ||| method == seq![
                't', 'e', 'x', 't', 'D', 'o', 'c', 'u', 'm', 'e', 'n', 't', '/', 'd', 'i', 'd',
                'S', 'a', 'v', 'e',
            ]
        },
{
    reveal_strlit("textDocument/didOpen");
    reveal_strlit("textDocument/didChange");
    reveal_strlit("textDocument/didClose");
    reveal_strlit("$/cancelRequest");
    reveal_strlit("$/setTrace");
    reveal_strlit("$/logTrace");
    reveal_strlit("workspace/didChangeConfiguration");
    reveal_strlit("textDocument/willSave");
    reveal_strlit("textDocument/didSave");
    assert("textDocument/didOpen"@ =~= seq![
        't', 'e', 'x', 't', 'D', 'o', 'c', 'u', 'm', 'e', 'n', 't', '/', 'd', 'i', 'd', 'O', 'p',
        'e', 'n',
    ]);
    assert("textDocument/didChange"@ =~= seq![
        't', 'e', 'x', 't', 'D', 'o', 'c', 'u', 'm', 'e', 'n', 't', '/', 'd', 'i', 'd', 'C', 'h',
        'a', 'n', 'g', 'e',
    ]);
    assert("textDocument/didClose"@ =~= seq![
        't', 'e', 'x', 't', 'D', 'o', 'c', 'u', 'm', 'e', 'n', 't', '/', 'd', 'i', 'd', 'C', 'l',
        'o', 's', 'e',
    ]);
    assert("$/cancelRequest"@ =~= seq![
        '$', '/', 'c', 'a', 'n', 'c', 'e', 'l', 'R', 'e', 'q', 'u', 'e', 's', 't',
    ]);
    assert("$/setTrace"@ =~= seq!['$', '/', 's', 'e', 't', 'T', 'r', 'a', 'c', 'e']);
    assert("$/logTrace"@ =~= seq!['$', '/', 'l', 'o', 'g', 'T', 'r', 'a', 'c', 'e']);
    assert("workspace/didChangeConfiguration"@ =~= seq![
        'w', 'o', 'r', 'k', 's', 'p', 'a', 'c', 'e', '/', 'd', 'i', 'd', 'C', 'h', 'a', 'n', 'g',
        'e', 'C', 'o', 'n', 'f', 'i', 'g', 'u', 'r', 'a', 't', 'i', 'o', 'n',
    ]);
    assert("textDocument/willSave"@ =~= seq![
        't', 'e', 'x', 't', 'D', 'o', 'c', 'u', 'm', 'e', 'n', 't', '/', 'w', 'i', 'l', 'l', 'S',
        'a', 'v', 'e',
    ]);
    assert("textDocument/didSave"@ =~= seq![
        't', 'e', 'x', 't', 'D', 'o', 'c', 'u', 'm', 'e', 'n', 't', '/', 'd', 'i', 'd', 'S', 'a',
        'v', 'e',
    ]);
    assert("textDocument/didOpen"@[16] != "textDocument/didSave"@[16]);
    assert("textDocument/didClose"@[13] != "textDocument/willSave"@[13]);
    assert("$/setTrace"@[2] != "$/logTrace"@[2]);
}

/// A directory is read unless it is called `out`. A file is read if its name is something and
/// then `.mojom`. Nothing else is.
pub proof fn entries_by_their_names(is_dir: bool, is_file: bool, name: Seq<char>)
    ensures
        workspace::entry_action(is_dir, is_file, name) == EntryAction::Descend <==> is_dir && name
            != seq!['o', 'u', 't'],
        workspace::entry_action(is_dir, is_file, name) == EntryAction::Parse <==> is_file && !(
        is_dir && name != seq!['o', 'u', 't']) && has_extension(name),
{
    reveal_strlit("out");
    reveal_strlit(".mojom");
    assert("out"@ =~= seq!['o', 'u', 't']);
    assert(".mojom"@ =~= seq!['.', 'm', 'o', 'j', 'o', 'm']);
    let end = seq!['.', 'm', 'o', 'j', 'o', 'm'];
    if has_extension(name) {
        let stem = choose|stem: Seq<char>| stem.len() > 0 && name == #[trigger] extended(stem);
        assert(name.skip(name.len() - 6) =~= end);
    }
    if name.len() > 6 && name.skip(name.len() - 6) == end {
        let stem = name.take(name.len() - 6);
        assert(name =~= extended(stem));
    }
}

/// `stem` with the extension of Mojom files.
pub open spec fn extended(stem: Seq<char>) -> Seq<char> {
    stem + seq!['.', 'm', 'o', 'j', 'o', 'm']
}

/// Whether `name` is something with the extension of Mojom files.
pub open spec fn has_extension(name: Seq<char>) -> bool {
    exists|stem: Seq<char>| stem.len() > 0 && name == #[trigger] extended(stem)
}

/// A search through the imports ends with the definition in the first import that has one, and
/// asks for the first import that is not known, whichever comes first. It ends without a
/// definition where all imports are known and none has one.
pub proof fn search_stops_at_the_first_answer(
    symbols: UriMap<ParsedSymbols>,
    uris: Seq<Seq<char>>,
    ident: Seq<char>,
    next: int,
)
    requires
        0 <= next,
    ensures
        match workspace::search_imports(symbols, uris, ident, next) {
            DefinitionStepView::Reply(Some(location)) => exists|n: int|
                next <= n < uris.len() && location.uri == #[trigger] uris[n] && symbols.at(
                    uris[n],
                ) is Some && symbols.at(uris[n])->0.definition(ident) == Some(location.range)
                    && all_without(symbols, uris, ident, next, n),
            DefinitionStepView::Reply(None) => all_without(
                symbols,
                uris,
                ident,
                next,
                uris.len() as int,
            ),
            DefinitionStepView::Load(n, uri) => {
                &&& next <= n < uris.len()
                &&& uri == uris[n]
                &&& symbols.at(uri) is None
                &&& all_without(symbols, uris, ident, next, n)
            },
        },
    decreases uris.len() - next,
{
    if next < uris.len() {
        search_stops_at_the_first_answer(symbols, uris, ident, next + 1);
        if let Some(parsed) = symbols.at(uris[next]) {
            if let Some(range) = parsed.definition(ident) {
                assert(all_without(symbols, uris, ident, next, next));
            } else {
                if let DefinitionStepView::Reply(Some(location)) = workspace::search_imports(
                    symbols,
                    uris,
                    ident,
                    next + 1,
                ) {
                    let n = choose|n: int|
                        next + 1 <= n < uris.len() && location.uri == #[trigger] uris[n]
                            && symbols.at(uris[n]) is Some && symbols.at(uris[n])->0.definition(
                            ident,
                        ) == Some(location.range) && all_without(symbols, uris, ident, next + 1, n);
                    assert(all_without(symbols, uris, ident, next, n));
                }
            }
        }
    }
}

/// Whether the imports from number `from` up to number `to` are known and do not define
/// `ident`.
pub open spec fn all_without(
    symbols: UriMap<ParsedSymbols>,
    uris: Seq<Seq<char>>,
    ident: Seq<char>,
    from: int,
    to: int,
) -> bool {
    forall|i: int|
        from <= i < to ==> (symbols.at(#[trigger] uris[i]) matches Some(parsed)
            && parsed.definition(ident) is None)
}

/// The import at a position leads to the very start of its document. Without one, the document
/// itself is asked first and its imports after it, in their order. A document that is not open
/// has no definitions.
pub proof fn definition_is_looked_for_in_this_order(
    ws: Workspace,
    uri: Seq<char>,
    position: lsp::Position,
    import: Option<Seq<char>>,
    next: int,
)
    ensures
        ({
            let step = ws.definition_step(uri, position, import, next);
            match ws.parsed_files.at(uri) {
                None => step == DefinitionStepView::Reply(None),
                Some(parsed) => match import {
                    Some(target) => {
                        &&& step matches DefinitionStepView::Reply(Some(location))
                        &&& location.uri == target
                        &&& location.range.start.line == 0
                        &&& location.range.start.character == 0
                        &&& location.range.end == location.range.start
                    },
                    None => match parsed.ast.definition(parsed.ast.identifier(position)) {
                        Some(range) => {
                            &&& step matches DefinitionStepView::Reply(Some(location))
                            &&& location.uri == uri
                            &&& location.range == range
                        },
                        None => step == workspace::search_imports(
                            ws.symbols,
                            text::strings(parsed.import_uris@),
                            parsed.ast.identifier(position),
                            next,
                        ),
                    },
                },
            }
        }),
{
}

/// Clangd is asked about what stands at a position of an open document, and only where it can
/// be asked.
pub proof fn clangd_is_asked_about_what_stands_there(
    ws: Workspace,
    uri: Seq<char>,
    position: lsp::Position,
)
    ensures
        !ws.clangd ==> ws.clangd_symbol(uri, position) is None,
        ws.parsed_files.at(uri) is None ==> ws.clangd_symbol(uri, position) is None,
        ws.clangd && ws.parsed_files.at(uri) is Some ==> ws.clangd_symbol(uri, position)
            == ws.parsed_files.at(uri)->0.ast.symbol_at_position(position),
{
}

/// The definition in imported files is the one in the first file that has one.
pub proof fn first_imported_file_counts(files: Seq<(String, ParsedSymbols)>, ident: Seq<char>)
    ensures
        match diagnostic::first_definition(files, ident) {
            Some(location) => exists|n: int|
                0 <= n < files.len() && location.uri == (#[trigger] files[n]).0@
                    && files[n].1.definition(ident) == Some(location.range) && forall|i: int|
                    0 <= i < n ==> (#[trigger] files[i]).1.definition(ident) is None,
            None => forall|i: int|
                0 <= i < files.len() ==> (#[trigger] files[i]).1.definition(ident) is None,
        },
    decreases files.len(),
{
    if files.len() > 0 {
        let rest = files.skip(1);
        first_imported_file_counts(rest, ident);
        if files[0].1.definition(ident) is None {
            match diagnostic::first_definition(rest, ident) {
                Some(location) => {
                    let n = choose|n: int|
                        0 <= n < rest.len() && location.uri == (#[trigger] rest[n]).0@
                            && rest[n].1.definition(ident) == Some(location.range) && forall|i: int|
                            0 <= i < n ==> (#[trigger] rest[i]).1.definition(ident) is None;
                    assert(files[n + 1] == rest[n]);
                    assert forall|i: int| 0 <= i < n + 1 implies (
                    #[trigger] files[i]).1.definition(ident) is None by {
                        if i > 0 {
                            assert(rest[i - 1] == files[i]);
                        }
                    }
                },
                None => {
                    assert forall|i: int| 0 <= i < files.len() implies (
                    #[trigger] files[i]).1.definition(ident) is None by {
                        if i > 0 {
                            assert(rest[i - 1] == files[i]);
                        }
                    }
                },
            }
        }
    }
}

/// The files of two lists, one behind the other, that can be read are those of the first and
/// then those of the second. A single file is kept, with its URI, if it can be read.
pub proof fn readable_files_stay_in_their_order(
    a: Seq<(String, Option<ParsedSymbols>)>,
    b: Seq<(String, Option<ParsedSymbols>)>,
    file: (String, Option<ParsedSymbols>),
)
    ensures
        diagnostic::readable(a + b) == diagnostic::readable(a) + diagnostic::readable(b),
        match file.1 {
            Some(symbols) => diagnostic::readable(seq![file]) == seq![(file.0, symbols)],
            None => diagnostic::readable(seq![file]).len() == 0,
        },
    decreases b.len(),
{
    let one = seq![file];
    assert(one.drop_last().len() == 0);
    assert(diagnostic::readable(one.drop_last()) =~= Seq::empty());
    if let Some(symbols) = file.1 {
        assert(diagnostic::readable(one) =~= seq![(file.0, symbols)]);
    }
    if b.len() == 0 {
        assert(a + b =~= a);
        assert(diagnostic::readable(a) + diagnostic::readable(b) =~= diagnostic::readable(a));
    } else {
        assert((a + b).drop_last() =~= a + b.drop_last());
        readable_files_stay_in_their_order(a, b.drop_last(), file);
        assert(diagnostic::readable(a + b) =~= diagnostic::readable(a) + diagnostic::readable(b));
    }
}

/// The current document is asked for a definition first, and the files that it imports after
/// it. Without a document there is none.
pub proof fn current_document_comes_first(d: Diagnostic, pos: lsp::Position)
    ensures
        match d.ast {
            None => d.definition_at(pos) is None && d.symbol_at(pos) is None,
            Some(ast) => {
                let ident = ast.ast.identifier(pos);
                &&& d.symbol_at(pos) == ast.ast.symbol_at_position(pos)
                &&& match ast.ast.definition(ident) {
                    Some(range) => {
                        &&& d.definition_at(pos) matches Some(location)
                        &&& location.uri == ast.uri@
                        &&& location.range == range
                    },
                    None => match d.imported_files {
                        Some(files) => d.definition_at(pos) == diagnostic::first_definition(
                            files@,
                            ident,
                        ),
                        None => d.definition_at(pos) is None,
                    },
                }
            },
        },
{
}

/// The module of a document is that of its first module statement.
pub proof fn module_is_the_first_one(stmts: Seq<Statement>)
    ensures
        match document::first_module(stmts) {
            Some(m) => exists|i: int|
                0 <= i < stmts.len() && #[trigger] stmts[i] == Statement::Module(m)
                    && forall|k: int|
                    0 <= k < i ==> !((#[trigger] stmts[k]) is Module),
            None => forall|i: int| 0 <= i < stmts.len() ==> !((#[trigger] stmts[i]) is Module),
        },
{
    lemma_first_module(stmts);
}

proof fn lemma_first_module(stmts: Seq<Statement>)
    ensures
        mojomast::modules(stmts).len() > 0 ==> exists|i: int|
            0 <= i < stmts.len() && #[trigger] stmts[i] == Statement::Module(
                mojomast::modules(stmts)[0],
            ) && forall|k: int| 0 <= k < i ==> !((#[trigger] stmts[k]) is Module),
        mojomast::modules(stmts).len() == 0 ==> forall|i: int|
            0 <= i < stmts.len() ==> !((#[trigger] stmts[i]) is Module),
    decreases stmts.len(),
{
    if stmts.len() > 0 {
        let front = stmts.drop_last();
        let ms = mojomast::modules(front);
        lemma_first_module(front);
        if ms.len() > 0 {
            let i = choose|i: int|
                0 <= i < front.len() && #[trigger] front[i] == Statement::Module(ms[0])
                    && forall|k: int| 0 <= k < i ==> !((#[trigger] front[k]) is Module);
            assert(stmts[i] == front[i]);
            assert forall|k: int| 0 <= k < i implies !((#[trigger] stmts[k]) is Module) by {
                assert(front[k] == stmts[k]);
            }
        } else {
            assert forall|k: int| 0 <= k < front.len() implies !((#[trigger] stmts[k]) is Module)
                by {
                assert(front[k] == stmts[k]);
            }
            assert(stmts[stmts.len() - 1] == stmts.last());
        }
    }
}

/// A walk through two lists of statements, one behind the other, goes through the first and then
/// through the second.
pub proof fn walk_goes_through_the_statements<'a>(a: Seq<Statement>, b: Seq<Statement>)
    ensures
        traversal::steps::<'a>(a + b) == traversal::steps::<'a>(a) + traversal::steps::<'a>(b),
    decreases b.len(),
{
    if b.len() == 0 {
        assert(a + b =~= a);
        assert(traversal::steps::<'a>(a) + traversal::steps::<'a>(b) =~= traversal::steps::<'a>(a));
    } else {
        assert((a + b).drop_last() =~= a + b.drop_last());
        walk_goes_through_the_statements(a, b.drop_last());
        assert(traversal::steps::<'a>(a + b) =~= traversal::steps::<'a>(a)
            + traversal::steps::<'a>(b));
    }
}

/// A walk enters an interface or a struct, goes through its members in their order, and leaves
/// it. Every other statement is one step.
pub proof fn walk_enters_and_leaves<'a>(stmt: Statement)
    ensures
        ({
            let steps = traversal::steps::<'a>(seq![stmt]);
            match stmt {
                Statement::Module(x) => steps.len() == 1 && steps[0] == Traversal::<'a>::Module(&x),
                Statement::Import(x) => steps.len() == 1 && steps[0] == Traversal::<'a>::Import(&x),
                Statement::Union(x) => steps.len() == 1 && steps[0] == Traversal::<'a>::Union(&x),
                Statement::Enum(x) => steps.len() == 1 && steps[0] == Traversal::<'a>::Enum(&x),
                Statement::Const(x) => steps.len() == 1 && steps[0] == Traversal::<'a>::Const(&x),
                Statement::Interface(x) => {
                    &&& steps.len() == x.members@.len() + 2
                    &&& steps[0] == Traversal::<'a>::EnterInterface(&x)
                    &&& steps.last() == Traversal::<'a>::LeaveInterface(&x)
                    &&& forall|j: int|
                        0 <= j < x.members@.len() ==> is_interface_step(
                            #[trigger] x.members@[j],
                            steps[j + 1],
                        )
                },
                Statement::Struct(x) => {
                    &&& steps.len() == x.members@.len() + 2
                    &&& steps[0] == Traversal::<'a>::EnterStruct(&x)
                    &&& steps.last() == Traversal::<'a>::LeaveStruct(&x)
                    &&& forall|j: int|
                        0 <= j < x.members@.len() ==> is_struct_step(
                            #[trigger] x.members@[j],
                            steps[j + 1],
                        )
                },
            }
        }),
{
    let one = seq![stmt];
    assert(one.drop_last().len() == 0);
    assert(traversal::steps::<'a>(one.drop_last()) =~= Seq::empty());
    assert(traversal::steps::<'a>(one) =~= traversal::statement_steps(&stmt));
}

/// Whether `step` is the one at this member of an interface.
pub open spec fn is_interface_step(m: InterfaceMember, step: Traversal) -> bool {
    match m {
        InterfaceMember::Const(x) => step matches Traversal::Const(y) && *y == x,
        InterfaceMember::Enum(x) => step matches Traversal::Enum(y) && *y == x,
        InterfaceMember::Method(x) => step matches Traversal::Method(y) && *y == x,
    }
}

/// Whether `step` is the one at this member of a struct.
pub open spec fn is_struct_step(m: StructBody, step: Traversal) -> bool {
    match m {
        StructBody::Const(x) => step matches Traversal::Const(y) && *y == x,
        StructBody::Enum(x) => step matches Traversal::Enum(y) && *y == x,
        StructBody::Field(x) => step matches Traversal::StructField(y) && *y == x,
    }
}

/// What is known of a document is what its entry says, and nothing is known of a document
/// without an entry.
pub proof fn entry_says_what_is_known<V>(es: Seq<(String, V)>, uri: Seq<char>, i: int)
    requires
        uri_map::distinct(es),
    ensures
        0 <= i < es.len() && es[i].0@ == uri ==> uri_map::lookup(es, uri) == Some(es[i].1),
        (forall|k: int| 0 <= k < es.len() ==> (#[trigger] es[k]).0@ != uri) ==> uri_map::lookup(
            es,
            uri,
        ) is None,
{
    if 0 <= i < es.len() && es[i].0@ == uri {
        uri_map::lemma_present(es, uri, i);
    }
    if forall|k: int| 0 <= k < es.len() ==> (#[trigger] es[k]).0@ != uri {
        uri_map::lemma_absent(es, uri);
    }
}

/// Leaving a document out of two lists, one behind the other, leaves it out of both. A single
/// entry stays unless it is for that document.
pub proof fn other_entries_stay_in_their_order<V>(
    a: Seq<(String, V)>,
    b: Seq<(String, V)>,
    e: (String, V),
    uri: Seq<char>,
)
    ensures
        uri_map::without(a + b, uri) == uri_map::without(a, uri) + uri_map::without(b, uri),
        e.0@ == uri ==> uri_map::without(seq![e], uri).len() == 0,
        e.0@ != uri ==> uri_map::without(seq![e], uri) == seq![e],
    decreases b.len(),
{
    let one = seq![e];
    assert(one.drop_last().len() == 0);
    assert(uri_map::without(one.drop_last(), uri) =~= Seq::empty());
    if e.0@ != uri {
        assert(uri_map::without(one, uri) =~= one);
    }
    if b.len() == 0 {
        assert(a + b =~= a);
        assert(uri_map::without(a, uri) + uri_map::without(b, uri) =~= uri_map::without(a, uri));
    } else {
        assert((a + b).drop_last() =~= a + b.drop_last());
        other_entries_stay_in_their_order(a, b.drop_last(), e, uri);
        assert(uri_map::without(a + b, uri) =~= uri_map::without(a, uri) + uri_map::without(
            b,
            uri,
        ));
    }
}

/// The source directory of Chromium is called `src`, and the directory around it holds a
/// `.gclient` file. The root is the innermost such directory, and the directory that was given
/// where there is none.
pub proof fn root_is_the_innermost_source_directory(
    path: Seq<String>,
    gclient: Seq<bool>,
    n: int,
    m: int,
)
    requires
        server::is_src_len(path, gclient, n),
        0 < m <= path.len(),
    ensures
        path[m - 1]@ == seq!['s', 'r', 'c'] && gclient[m - 1] ==> m <= n,
        n < path.len() ==> n > 0 && path[n - 1]@ == seq!['s', 'r', 'c'] && gclient[n - 1],
        0 <= n <= path.len(),
{
    reveal_strlit("src");
    assert("src"@ =~= seq!['s', 'r', 'c']);
    if path[m - 1]@ == seq!['s', 'r', 'c'] && gclient[m - 1] {
        assert(server::is_src_dir(path, gclient, m));
    }
}

} // verus!
