//! What the answers about documents say, field by field and part by part.
use vstd::prelude::*;

use crate::document_symbol::{Class, SymbolView};
use crate::laws;
use crate::lsp;
use crate::lsp::SymbolKind;
use crate::mojomast;
use crate::mojomast::ImportResolution;
use crate::uri_map::UriMap;
use crate::workspace;
use crate::workspace::ParsedSymbols;

verus! {

/// How many of the first `i` of `rs` were found.
pub open spec fn found_before(rs: Seq<ImportResolution>, i: int) -> nat
    decreases i,
{
    if i <= 0 {
        0
    } else {
        found_before(rs, i - 1) + (if rs[i - 1] is Found {
            1nat
        } else {
            0nat
        })
    }
}

proof fn lemma_found_before(a: Seq<ImportResolution>, b: Seq<ImportResolution>, i: int)
    requires
        i <= a.len(),
        i <= b.len(),
        forall|k: int| 0 <= k < i ==> a[k] == b[k],
    ensures
        found_before(a, i) == found_before(b, i),
    decreases i,
{
    if i > 0 {
        lemma_found_before(a, b, i - 1);
    }
}

proof fn lemma_found_grows(rs: Seq<ImportResolution>, i: int, j: int)
    requires
        0 <= i <= j,
    ensures
        found_before(rs, i) <= found_before(rs, j),
        i < j && rs[i] is Found ==> found_before(rs, i) < found_before(rs, j),
    decreases j,
{
    if i < j {
        lemma_found_grows(rs, i, j - 1);
    }
}

/// The URIs of a document's imports are those of all imports that were found, in their order,
/// whatever became of the others: there are as many, each stands behind those of the imports
/// found before it, and of two the one that is imported first stands first.
pub proof fn found_imports_stay_in_their_order(rs: Seq<ImportResolution>)
    ensures
        mojomast::found_uris(rs).len() == found_before(rs, rs.len() as int),
        forall|i: int|
            0 <= i < rs.len() && (#[trigger] rs[i]) is Found ==> {
                &&& found_before(rs, i) < mojomast::found_uris(rs).len()
                &&& mojomast::found_uris(rs)[found_before(rs, i) as int] == rs[i]->Found_0@
            },
        forall|i: int, j: int|
            0 <= i < j < rs.len() && (#[trigger] rs[i]) is Found && (#[trigger] rs[j]) is Found
                ==> found_before(rs, i) < found_before(rs, j),
    decreases rs.len(),
{
    if rs.len() > 0 {
        let front = rs.drop_last();
        let n = front.len() as int;
        found_imports_stay_in_their_order(front);
        lemma_found_before(rs, front, n);
        assert forall|i: int| 0 <= i < rs.len() && (#[trigger] rs[i]) is Found implies {
            &&& found_before(rs, i) < mojomast::found_uris(rs).len()
            &&& mojomast::found_uris(rs)[found_before(rs, i) as int] == rs[i]->Found_0@
        } by {
            lemma_found_before(rs, front, if i < n { i } else { n });
            if i < n {
                assert(front[i] == rs[i]);
            }
        }
        assert forall|i: int, j: int|
            0 <= i < j < rs.len() && (#[trigger] rs[i]) is Found && (#[trigger] rs[j]) is Found
            implies found_before(rs, i) < found_before(rs, j) by {
            lemma_found_grows(rs, i, j);
        }
    }
}

/// Whether `ident` is the name of the symbol `s`, or the name of the module, a dot and that
/// name.
pub open spec fn is_called(
    module_name: Option<Seq<char>>,
    s: SymbolView,
    ident: Seq<char>,
) -> bool {
    ident == s.name || (module_name matches Some(m) && ident == m + seq!['.'] + s.name)
}

proof fn lemma_first_symbol(module_name: Option<Seq<char>>, ss: Seq<SymbolView>, ident: Seq<char>)
    ensures
        match workspace::first_symbol(module_name, ss, ident) {
            Some(range) => exists|k: int|
                #![trigger ss[k]]
                0 <= k < ss.len() && is_called(module_name, ss[k], ident) && range == ss[k].range
                    && forall|j: int|
                    0 <= j < k ==> !is_called(module_name, #[trigger] ss[j], ident),
            None => forall|k: int|
                0 <= k < ss.len() ==> !is_called(module_name, #[trigger] ss[k], ident),
        },
    decreases ss.len(),
{
    reveal_strlit(".");
    assert("."@ =~= seq!['.']);
    if ss.len() > 0 {
        let rest = ss.skip(1);
        lemma_first_symbol(module_name, rest, ident);
        if is_called(module_name, ss[0], ident) {
            assert(ss[0].range == ss[0].range);
        } else {
            match workspace::first_symbol(module_name, rest, ident) {
                Some(range) => {
                    let k = choose|k: int|
                        #![trigger rest[k]]
                        0 <= k < rest.len() && is_called(module_name, rest[k], ident) && range
                            == rest[k].range && forall|j: int|
                            0 <= j < k ==> !is_called(module_name, #[trigger] rest[j], ident);
                    assert(ss[k + 1] == rest[k]);
                    assert forall|j: int| 0 <= j < k + 1 implies !is_called(
                        module_name,
                        #[trigger] ss[j],
                        ident,
                    ) by {
                        if j > 0 {
                            assert(rest[j - 1] == ss[j]);
                        }
                    }
                },
                None => {
                    assert forall|k: int| 0 <= k < ss.len() implies !is_called(
                        module_name,
                        #[trigger] ss[k],
                        ident,
                    ) by {
                        if k > 0 {
                            assert(rest[k - 1] == ss[k]);
                        }
                    }
                },
            }
        }
    }
}

/// A document defines what one of its symbols is called, of whatever class the symbol is. The
/// definition is the range of the first such symbol, and there is none where no symbol is
/// called so.
pub proof fn every_symbol_is_found_by_its_name(parsed: ParsedSymbols, ident: Seq<char>)
    ensures
        ({
            let m = lsp::option_view(parsed.module_name);
            let ss = parsed.symbols@;
            match parsed.definition(ident) {
                Some(range) => exists|k: int|
                    #![trigger ss[k]]
                    0 <= k < ss.len() && is_called(m, ss[k]@, ident) && range == ss[k]@.range
                        && forall|j: int| 0 <= j < k ==> !is_called(m, (#[trigger] ss[j])@, ident),
                None => forall|k: int| 0 <= k < ss.len() ==> !is_called(
                    m,
                    (#[trigger] ss[k])@,
                    ident,
                ),
            }
        }),
{
    let m = lsp::option_view(parsed.module_name);
    let ss = parsed.symbols@;
    let views = parsed.symbol_views();
    lemma_first_symbol(m, views, ident);
    match parsed.definition(ident) {
        Some(range) => {
            let k = choose|k: int|
                #![trigger views[k]]
                0 <= k < views.len() && is_called(m, views[k], ident) && range == views[k].range
                    && forall|j: int| 0 <= j < k ==> !is_called(m, #[trigger] views[j], ident);
            assert(ss[k]@ == views[k]);
            assert forall|j: int| 0 <= j < k implies !is_called(m, (#[trigger] ss[j])@, ident) by {
                assert(views[j] == ss[j]@);
            }
        },
        None => {
            assert forall|k: int| 0 <= k < ss.len() implies !is_called(
                m,
                (#[trigger] ss[k])@,
                ident,
            ) by {
                assert(views[k] == ss[k]@);
            }
        },
    }
}

/// The kind that is shown for a symbol of each class.
pub open spec fn is_kind_of(kind: SymbolKind, class: Class) -> bool {
    &&& class is Interface <==> kind == SymbolKind::Interface
    &&& class is Method <==> kind == SymbolKind::Method
    &&& class is Struct || class is Union <==> kind == SymbolKind::Struct
    &&& class is Enum <==> kind == SymbolKind::Enum
    &&& class is Const <==> kind == SymbolKind::Constant
}

/// Whether `target` is the name `name`, or the name that the C++ bindings have for a pointer to
/// it or for its base class.
pub open spec fn is_target(name: Seq<char>, target: Seq<char>) -> bool {
    ||| target == name
    ||| target == name + seq!['P', 't', 'r']
    ||| target == name + seq![
        'I',
        'n',
        't',
        'e',
        'r',
        'f',
        'a',
        'c',
        'e',
        'B',
        'a',
        's',
        'e',
    ]
}

proof fn lemma_is_target(name: Seq<char>, target: Seq<char>)
    ensures
        workspace::query_matches(name, target) <==> is_target(name, target),
{
    reveal_strlit("Ptr");
    reveal_strlit("InterfaceBase");
    assert("Ptr"@ =~= seq!['P', 't', 'r']);
    assert("InterfaceBase"@ =~= seq![
        'I',
        'n',
        't',
        'e',
        'r',
        'f',
        'a',
        'c',
        'e',
        'B',
        'a',
        's',
        'e',
    ]);
}

/// Whether `r` shows the symbol `s` of the document at `uri`, at its name.
pub open spec fn shows_name(r: lsp::SymbolInformationView, uri: Seq<char>, s: SymbolView) -> bool {
    &&& r.name == s.name
    &&& is_kind_of(r.kind, s.class)
    &&& r.location.uri == uri
    &&& r.location.range == s.name_range
}

/// Whether `r` shows a symbol of a known document that a query for `target` asks for.
pub open spec fn shows_asked(
    symbols: UriMap<ParsedSymbols>,
    target: Seq<char>,
    r: lsp::SymbolInformationView,
    uri: Seq<char>,
    k: int,
) -> bool {
    &&& symbols.at(uri) matches Some(parsed)
    &&& 0 <= k < parsed.symbols@.len()
    &&& is_target(parsed.symbols@[k]@.name, target)
    &&& shows_name(r, uri, parsed.symbols@[k]@)
}

/// Whether `r` shows one of the symbols of the known documents that a query for `target` asks
/// for.
pub open spec fn shows_something_asked(
    symbols: UriMap<ParsedSymbols>,
    target: Seq<char>,
    r: lsp::SymbolInformationView,
) -> bool {
    exists|uri: Seq<char>, k: int| #[trigger] shows_asked(symbols, target, r, uri, k)
}

/// Everything that a query gives shows a symbol that it asks for, with the name, the kind and
/// the place of that symbol; and every such symbol is shown.
pub proof fn query_shows_the_symbols_it_asks_for(symbols: UriMap<ParsedSymbols>, target: Seq<char>)
    requires
        symbols.wf(),
    ensures
        forall|i: int|
            0 <= i < workspace::all_query_results(symbols.entries@, target).len()
                ==> shows_something_asked(
                symbols,
                target,
                #[trigger] workspace::all_query_results(symbols.entries@, target)[i],
            ),
        forall|uri: Seq<char>, k: int|
            #![trigger symbols.at(uri)->0.symbols@[k]]
            symbols.at(uri) is Some && 0 <= k < symbols.at(uri)->0.symbols@.len() && is_target(
                symbols.at(uri)->0.symbols@[k]@.name,
                target,
            ) ==> exists|i: int|
                0 <= i < workspace::all_query_results(symbols.entries@, target).len()
                    && shows_asked(
                    symbols,
                    target,
                    #[trigger] workspace::all_query_results(symbols.entries@, target)[i],
                    uri,
                    k,
                ),
{
    let all = workspace::all_query_results(symbols.entries@, target);
    laws::query_finds_what_it_asks_for(symbols, target);
    assert forall|i: int| 0 <= i < all.len() implies shows_something_asked(
        symbols,
        target,
        #[trigger] all[i],
    ) by {
        let r = all[i];
        assert(all.contains(r));
        let (uri, k) = choose|uri: Seq<char>, k: int| #[trigger]
            laws::is_asked_for(symbols, target, uri, k) && r == workspace::query_result(
                uri,
                symbols.at(uri)->0.symbol_views()[k],
            );
        let s = symbols.at(uri)->0.symbol_views()[k];
        assert(s == symbols.at(uri)->0.symbols@[k]@);
        lemma_is_target(s.name, target);
        assert(shows_asked(symbols, target, r, uri, k));
    }
    assert forall|uri: Seq<char>, k: int|
        #![trigger symbols.at(uri)->0.symbols@[k]]
        symbols.at(uri) is Some && 0 <= k < symbols.at(uri)->0.symbols@.len() && is_target(
            symbols.at(uri)->0.symbols@[k]@.name,
            target,
        ) implies exists|i: int|
        0 <= i < all.len() && shows_asked(symbols, target, #[trigger] all[i], uri, k) by {
        let s = symbols.at(uri)->0.symbol_views()[k];
        assert(s == symbols.at(uri)->0.symbols@[k]@);
        lemma_is_target(s.name, target);
        assert(laws::is_asked_for(symbols, target, uri, k));
        let r = workspace::query_result(uri, s);
        assert(all.contains(r));
        let i = choose|i: int| 0 <= i < all.len() && all[i] == r;
        assert(shows_asked(symbols, target, all[i], uri, k));
    }
}

/// A query gives what it finds in the first part of a document's symbols and then what it finds
/// in the rest, one result at most for each symbol.
pub proof fn query_goes_through_the_symbols(
    uri: Seq<char>,
    a: Seq<SymbolView>,
    b: Seq<SymbolView>,
    target: Seq<char>,
)
    ensures
        workspace::query_results(uri, a + b, target) == workspace::query_results(uri, a, target)
            + workspace::query_results(uri, b, target),
        forall|s: SymbolView| #[trigger]
            workspace::query_results(uri, seq![s], target).len() == (if is_target(
                s.name,
                target,
            ) {
                1nat
            } else {
                0nat
            }),
    decreases b.len(),
{
    if b.len() == 0 {
        assert(a + b =~= a);
        assert(workspace::query_results(uri, a, target) + workspace::query_results(uri, b, target)
            =~= workspace::query_results(uri, a, target));
    } else {
        assert((a + b).drop_last() =~= a + b.drop_last());
        query_goes_through_the_symbols(uri, a, b.drop_last(), target);
        assert(workspace::query_results(uri, a + b, target) =~= workspace::query_results(
            uri,
            a,
            target,
        ) + workspace::query_results(uri, b, target));
    }
    assert forall|s: SymbolView| #[trigger]
        workspace::query_results(uri, seq![s], target).len() == (if is_target(s.name, target) {
            1nat
        } else {
            0nat
        }) by {
        lemma_is_target(s.name, target);
        assert(seq![s].drop_last() =~= Seq::<SymbolView>::empty());
        assert(workspace::query_results(uri, seq![s].drop_last(), target).len() == 0);
    }
}

/// A query gives what it finds in the first documents and then what it finds in the others.
pub proof fn query_goes_through_the_documents(
    a: Seq<(String, ParsedSymbols)>,
    b: Seq<(String, ParsedSymbols)>,
    target: Seq<char>,
)
    ensures
        workspace::all_query_results(a + b, target) == workspace::all_query_results(a, target)
            + workspace::all_query_results(b, target),
    decreases b.len(),
{
    if b.len() == 0 {
        assert(a + b =~= a);
        assert(workspace::all_query_results(a, target) + workspace::all_query_results(b, target)
            =~= workspace::all_query_results(a, target));
    } else {
        assert((a + b).drop_last() =~= a + b.drop_last());
        query_goes_through_the_documents(a, b.drop_last(), target);
        assert(workspace::all_query_results(a + b, target) =~= workspace::all_query_results(
            a,
            target,
        ) + workspace::all_query_results(b, target));
    }
}

/// The list of a document's symbols shows each of them, in their order, with its name, its kind
/// and the place of its whole definition.
pub proof fn listed_symbols_are_shown(uri: Seq<char>, ss: Seq<SymbolView>)
    ensures
        workspace::shown_symbols(uri, ss).len() == ss.len(),
        forall|i: int|
            0 <= i < ss.len() ==> {
                let r = #[trigger] workspace::shown_symbols(uri, ss)[i];
                &&& r.name == ss[i].name
                &&& is_kind_of(r.kind, ss[i].class)
                &&& r.location.uri == uri
                &&& r.location.range == ss[i].range
            },
{
}

} // verus!
