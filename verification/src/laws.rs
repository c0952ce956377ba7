//! What holds of the answers to several questions taken together.
use vstd::prelude::*;

use crate::definition;
use crate::document_symbol::{Class, SymbolView};
use crate::grammar::{rule_index, Rule};
use crate::lsp;
use crate::mojomast;
use crate::mojomast::{ImportResolution, MojomAst};
use crate::parser;
use crate::peg;
use crate::syntax;
use crate::syntax::{Import, Interface, InterfaceMember, Range, Statement, StructBody};
use crate::text;
use crate::uri_map;
use crate::uri_map::UriMap;
use crate::workspace;
use crate::workspace::{DefinitionStepView, ParsedSymbols, Workspace};

verus! {

/// The rules that a syntax error lists are determined by what was tried: there is only one
/// listing.
pub proof fn listing_is_unique(a: Seq<Rule>, b: Seq<Rule>, all: Seq<Rule>)
    requires
        parser::is_listing(a, all),
        parser::is_listing(b, all),
    ensures
        a == b,
    decreases a.len(),
{
    assert forall|r: Rule| a.contains(r) <==> b.contains(r) by {
        assert(a.contains(r) <==> all.contains(r));
        assert(b.contains(r) <==> all.contains(r));
    }
    lemma_same_order(a, b);
}

/// Two ascending lists of the same rules are the same.
proof fn lemma_same_order(a: Seq<Rule>, b: Seq<Rule>)
    requires
        forall|r: Rule| a.contains(r) <==> b.contains(r),
        forall|i: int, j: int|
            0 <= i < j < a.len() ==> rule_index(#[trigger] a[i]) < rule_index(#[trigger] a[j]),
        forall|i: int, j: int|
            0 <= i < j < b.len() ==> rule_index(#[trigger] b[i]) < rule_index(#[trigger] b[j]),
    ensures
        a == b,
    decreases a.len(),
{
    if a.len() == 0 {
        if b.len() > 0 {
            assert(b.contains(b[0]));
            assert(a.contains(b[0]));
        }
        assert(a =~= b);
    } else {
        let x = a.last();
        assert(a.contains(x));
        assert(b.contains(x));
        let k = choose|k: int| 0 <= k < b.len() && b[k] == x;
        let y = b.last();
        assert(b.contains(y));
        assert(a.contains(y));
        let m = choose|m: int| 0 <= m < a.len() && a[m] == y;
        // The last of each list is in the other list, and nothing comes after it there.
        if k < b.len() - 1 {
            assert(rule_index(b[k]) < rule_index(b[b.len() - 1]));
            assert(rule_index(a[m]) <= rule_index(a[a.len() - 1]));
        }
        assert(k == b.len() - 1);
        let a2 = a.drop_last();
        let b2 = b.drop_last();
        assert forall|r: Rule| a2.contains(r) <==> b2.contains(r) by {
            if a2.contains(r) {
                let i = choose|i: int| 0 <= i < a2.len() && a2[i] == r;
                assert(a[i] == r);
                assert(rule_index(a[i]) < rule_index(a[a.len() - 1]));
                assert(a.contains(r));
                let j = choose|j: int| 0 <= j < b.len() && b[j] == r;
                assert(j != b.len() - 1);
                assert(b2[j] == r);
            }
            if b2.contains(r) {
                let i = choose|i: int| 0 <= i < b2.len() && b2[i] == r;
                assert(b[i] == r);
                assert(rule_index(b[i]) < rule_index(b[b.len() - 1]));
                assert(b.contains(r));
                let j = choose|j: int| 0 <= j < a.len() && a[j] == r;
                assert(j != a.len() - 1);
                assert(a2[j] == r);
            }
        }
        lemma_same_order(a2, b2);
        assert(a =~= a2.push(x));
        assert(b =~= b2.push(x));
    }
}

/// The semantic check has nothing to say exactly if there is at most one module statement and
/// every import was found.
pub proof fn no_semantic_errors(ast: MojomAst, resolutions: Seq<ImportResolution>)
    requires
        resolutions.len() == mojomast::imports(ast.mojom.stmts@).len(),
    ensures
        workspace::semantic_errors(ast, resolutions).len() == 0 <==> {
            &&& mojomast::modules(ast.mojom.stmts@).len() <= 1
            &&& forall|i: int|
                0 <= i < resolutions.len() ==> #[trigger] resolutions[i] is Found
        },
{
    lemma_import_errors(ast, mojomast::imports(ast.mojom.stmts@), resolutions);
}

proof fn lemma_import_errors(ast: MojomAst, is: Seq<Import>, rs: Seq<ImportResolution>)
    requires
        is.len() == rs.len(),
    ensures
        ast.import_errors(is, rs).len() == 0 <==> forall|i: int|
            0 <= i < rs.len() ==> #[trigger] rs[i] is Found,
    decreases is.len(),
{
    if is.len() > 0 {
        let before = rs.drop_last();
        lemma_import_errors(ast, is.drop_last(), before);
        if forall|i: int| 0 <= i < rs.len() ==> #[trigger] rs[i] is Found {
            assert forall|i: int| 0 <= i < before.len() implies #[trigger] before[i] is Found by {
                assert(rs[i] is Found);
            }
            assert(rs.last() is Found);
        }
        if ast.import_errors(is, rs).len() == 0 {
            assert forall|i: int| 0 <= i < rs.len() implies #[trigger] rs[i] is Found by {
                if i < before.len() {
                    assert(before[i] is Found);
                }
            }
        }
    }
}

/// Whether `s` is one of `ss`.
pub open spec fn is_listed(s: SymbolView, ss: Seq<SymbolView>) -> bool {
    exists|k: int| 0 <= k < ss.len() && #[trigger] ss[k] == s
}

/// What stands at a position of a document is one of the symbols that are listed for it.
pub proof fn symbol_at_position_is_listed(ast: MojomAst, position: lsp::Position)
    ensures
        ast.symbol_at_position(position) matches Some(s) ==> is_listed(s, ast.document_symbols()),
{
    let offset = mojomast::offset_of(ast.text@, position) as int;
    lemma_symbol_at(ast, ast.mojom.stmts@, 0, offset);
    assert(ast.mojom.stmts@.skip(0) =~= ast.mojom.stmts@);
}

proof fn lemma_symbol_at(ast: MojomAst, stmts: Seq<Statement>, from: int, offset: int)
    requires
        0 <= from <= stmts.len(),
    ensures
        ast.symbol_at(stmts.skip(from), offset) matches Some(s) ==> is_listed(
            s,
            ast.symbols_of(stmts),
        ),
    decreases stmts.len() - from,
{
    let rest = stmts.skip(from);
    if rest.len() > 0 {
        assert(rest.skip(1) =~= stmts.skip(from + 1));
        lemma_symbol_at(ast, stmts, from + 1, offset);
        if let Statement::Interface(interface) = stmts[from] {
            if let Some(s) = ast.symbol_in(interface, offset) {
                let own = ast.statement_symbols(stmts[from]);
                assert(is_listed(s, own)) by {
                    if mojomast::holds(interface.name, offset) {
                        assert(own[0] == s);
                    } else {
                        let ms = interface.members@;
                        assert(ms.skip(0) =~= ms);
                        lemma_method_at(ast, interface, 0, offset);
                    }
                }
                lemma_statement_listed(ast, stmts, from, s);
            }
        }
    }
}

proof fn lemma_method_at(ast: MojomAst, interface: Interface, from: int, offset: int)
    requires
        0 <= from <= interface.members@.len(),
    ensures
        ast.method_at(interface, interface.members@.skip(from), offset) matches Some(s)
            ==> is_listed(s, ast.statement_symbols(Statement::Interface(interface))),
    decreases interface.members@.len() - from,
{
    let ms = interface.members@;
    let own = ast.statement_symbols(Statement::Interface(interface));
    if from < ms.len() {
        assert(ms.skip(from).skip(1) =~= ms.skip(from + 1));
        lemma_method_at(ast, interface, from + 1, offset);
        if let InterfaceMember::Method(m) = ms[from] {
            if mojomast::holds(m.name, offset) {
                assert(own[from + 1] == ast.interface_member_symbol(interface, ms[from]));
            }
        }
    }
}

/// The symbols of each statement are among those of all.
proof fn lemma_statement_listed(ast: MojomAst, stmts: Seq<Statement>, i: int, s: SymbolView)
    requires
        0 <= i < stmts.len(),
        is_listed(s, ast.statement_symbols(stmts[i])),
    ensures
        is_listed(s, ast.symbols_of(stmts)),
    decreases stmts.len(),
{
    let before = stmts.drop_last();
    let a = ast.symbols_of(before);
    let b = ast.statement_symbols(stmts.last());
    if i == stmts.len() - 1 {
        let k = choose|k: int| 0 <= k < b.len() && #[trigger] b[k] == s;
        assert((a + b)[a.len() + k] == s);
    } else {
        assert(before[i] == stmts[i]);
        lemma_statement_listed(ast, before, i, s);
        let k = choose|k: int| 0 <= k < a.len() && #[trigger] a[k] == s;
        assert((a + b)[k] == s);
    }
}

/// A definition in the document itself is the answer, whatever its imports define.
pub proof fn own_definition_comes_first(
    ws: Workspace,
    uri: Seq<char>,
    position: lsp::Position,
    next: int,
)
    requires
        ws.parsed_files.at(uri) matches Some(parsed) && parsed.ast.definition(
            parsed.ast.identifier(position),
        ) is Some,
    ensures
        ws.definition_step(uri, position, None, next) == DefinitionStepView::Reply(
            Some(
                lsp::LocationView {
                    uri,
                    range: ws.parsed_files.at(uri)->0.ast.definition(
                        ws.parsed_files.at(uri)->0.ast.identifier(position),
                    )->0,
                },
            ),
        ),
{
}

/// The answer from the imports is the definition in the first import that has one.
pub proof fn first_import_counts(
    symbols: UriMap<ParsedSymbols>,
    uris: Seq<Seq<char>>,
    ident: Seq<char>,
    next: int,
    location: lsp::LocationView,
) -> (n: int)
    requires
        0 <= next,
        workspace::search_imports(symbols, uris, ident, next) == DefinitionStepView::Reply(
            Some(location),
        ),
    ensures
        next <= n < uris.len(),
        location.uri == uris[n],
        symbols.at(uris[n]) matches Some(parsed) && parsed.definition(ident) == Some(
            location.range,
        ),
        forall|i: int|
            next <= i < n ==> (symbols.at(#[trigger] uris[i]) matches Some(parsed)
                && parsed.definition(ident) is None),
    decreases uris.len() - next,
{
    match symbols.at(uris[next]) {
        Some(parsed) => match parsed.definition(ident) {
            Some(_) => next,
            None => first_import_counts(symbols, uris, ident, next + 1, location),
        },
        None => next,
    }
}

/// A search asks for the symbols of each import at most once: when those of the import that it
/// asked for are known, it goes on from there and asks at most for later ones. Where they
/// cannot be had and the search goes on with the next import, the same holds.
pub proof fn search_makes_progress(
    symbols: UriMap<ParsedSymbols>,
    uris: Seq<Seq<char>>,
    ident: Seq<char>,
    next: int,
)
    requires
        0 <= next < uris.len(),
    ensures
        symbols.at(uris[next]) is Some ==> (workspace::search_imports(
            symbols,
            uris,
            ident,
            next,
        ) matches DefinitionStepView::Load(n, _) ==> n > next),
        workspace::search_imports(symbols, uris, ident, next + 1) matches DefinitionStepView::Load(
            n,
            _,
        ) ==> n > next,
{
    lemma_load_from(symbols, uris, ident, next + 1);
}

pub(crate) proof fn lemma_load_from(
    symbols: UriMap<ParsedSymbols>,
    uris: Seq<Seq<char>>,
    ident: Seq<char>,
    next: int,
)
    ensures
        workspace::search_imports(symbols, uris, ident, next) matches DefinitionStepView::Load(
            n,
            uri,
        ) ==> next <= n < uris.len() && uri == uris[n] && symbols.at(uri) is None,
    decreases uris.len() - next,
{
    if 0 <= next < uris.len() {
        lemma_load_from(symbols, uris, ident, next + 1);
    }
}

/// What is found as the definition of an identifier is the name of a symbol that is listed for
/// the document.
pub proof fn definition_is_listed(ast: MojomAst, ident: Seq<char>)
    ensures
        ast.definition(ident) matches Some(range) ==> exists|k: int|
            0 <= k < ast.document_symbols().len() && (#[trigger] ast.document_symbols()[k]).name_range
                == range,
{
    let ds = ast.definitions_of(ast.mojom.stmts@);
    lemma_definitions_listed(ast, ast.mojom.stmts@);
    if let Some(at) = definition::first_named(ds, ident) {
        lemma_first_named_is_one(ds, ident);
        let k = choose|k: int| 0 <= k < ds.len() && (#[trigger] ds[k]).at == at;
        assert(has_name_at(ast, ast.symbols_of(ast.mojom.stmts@), ds[k].at));
        let j = choose|j: int|
            0 <= j < ast.document_symbols().len() && (
            #[trigger] ast.document_symbols()[j]).name_range == ast.lsp_range_at(at);
        assert(ast.document_symbols()[j].name_range == ast.lsp_range_at(at));
    }
}

/// Whether the name of one of `ss` stands at `at`.
spec fn has_name_at(ast: MojomAst, ss: Seq<SymbolView>, at: Range) -> bool {
    exists|j: int| 0 <= j < ss.len() && (#[trigger] ss[j]).name_range == ast.lsp_range_at(at)
}

proof fn lemma_first_named_is_one(ds: Seq<definition::Definition>, ident: Seq<char>)
    ensures
        definition::first_named(ds, ident) matches Some(at) ==> exists|k: int|
            0 <= k < ds.len() && (#[trigger] ds[k]).at == at,
    decreases ds.len(),
{
    if ds.len() > 0 {
        let before = ds.drop_last();
        lemma_first_named_is_one(before, ident);
        if let Some(at) = definition::first_named(before, ident) {
            let k = choose|k: int| 0 <= k < before.len() && (#[trigger] before[k]).at == at;
            assert(ds[k].at == at);
        } else if ds.last().name == ident {
            assert(ds[ds.len() - 1].at == ds.last().at);
        }
    }
}

proof fn lemma_has_name_in_sum(ast: MojomAst, a: Seq<SymbolView>, b: Seq<SymbolView>, at: Range)
    ensures
        has_name_at(ast, a, at) || has_name_at(ast, b, at) ==> has_name_at(ast, a + b, at),
{
    if has_name_at(ast, a, at) {
        let j = choose|j: int|
            0 <= j < a.len() && (#[trigger] a[j]).name_range == ast.lsp_range_at(at);
        assert((a + b)[j].name_range == ast.lsp_range_at(at));
    } else if has_name_at(ast, b, at) {
        let j = choose|j: int|
            0 <= j < b.len() && (#[trigger] b[j]).name_range == ast.lsp_range_at(at);
        assert((a + b)[a.len() + j].name_range == ast.lsp_range_at(at));
    }
}

proof fn lemma_definitions_listed(ast: MojomAst, stmts: Seq<Statement>)
    ensures
        forall|k: int|
            0 <= k < ast.definitions_of(stmts).len() ==> has_name_at(
                ast,
                ast.symbols_of(stmts),
                (#[trigger] ast.definitions_of(stmts)[k]).at,
            ),
    decreases stmts.len(),
{
    if stmts.len() > 0 {
        let before = stmts.drop_last();
        lemma_definitions_listed(ast, before);
        lemma_statement_definitions_listed(ast, stmts.last());
        let d1 = ast.definitions_of(before);
        let d2 = ast.statement_definitions(stmts.last());
        let s1 = ast.symbols_of(before);
        let s2 = ast.statement_symbols(stmts.last());
        assert forall|k: int| 0 <= k < (d1 + d2).len() implies has_name_at(
            ast,
            s1 + s2,
            (#[trigger] (d1 + d2)[k]).at,
        ) by {
            let at = (d1 + d2)[k].at;
            if k < d1.len() {
                assert(has_name_at(ast, s1, d1[k].at));
            } else {
                assert(has_name_at(ast, s2, d2[k - d1.len()].at));
            }
            lemma_has_name_in_sum(ast, s1, s2, at);
        }
    }
}

proof fn lemma_statement_definitions_listed(ast: MojomAst, stmt: Statement)
    ensures
        forall|k: int|
            0 <= k < ast.statement_definitions(stmt).len() ==> has_name_at(
                ast,
                ast.statement_symbols(stmt),
                (#[trigger] ast.statement_definitions(stmt)[k]).at,
            ),
{
    let ds = ast.statement_definitions(stmt);
    let ss = ast.statement_symbols(stmt);
    match stmt {
        Statement::Interface(x) => {
            lemma_interface_definitions_listed(ast, x, x.members@.len() as int);
            assert(x.members@.take(x.members@.len() as int) =~= x.members@);
            assert(ss[0].name_range == ast.lsp_range_at(x.name));
        },
        Statement::Struct(x) => {
            lemma_struct_definitions_listed(ast, stmt, x.members@);
            let own = seq![ast.symbol(Class::Struct, x.name, x.range)];
            let inner = ast.struct_member_symbols(x.members@);
            assert(own[0].name_range == ast.lsp_range_at(x.name));
            assert forall|k: int| 0 <= k < ds.len() implies has_name_at(
                ast,
                ss,
                (#[trigger] ds[k]).at,
            ) by {
                if k > 0 {
                    let inner_ds = ast.struct_member_definitions(x, x.members@);
                    assert(has_name_at(ast, inner, inner_ds[k - 1].at));
                }
                lemma_has_name_in_sum(ast, own, inner, ds[k].at);
            }
        },
        Statement::Union(x) => {
            assert(ss[0].name_range == ast.lsp_range_at(x.name));
        },
        Statement::Enum(x) => {
            assert(ss[0].name_range == ast.lsp_range_at(x.name));
        },
        Statement::Const(x) => {
            assert(ss[0].name_range == ast.lsp_range_at(x.name));
        },
        _ => {},
    }
}

proof fn lemma_interface_definitions_listed(ast: MojomAst, x: Interface, n: int)
    requires
        0 <= n <= x.members@.len(),
    ensures
        forall|k: int|
            0 <= k < ast.interface_member_definitions(x, x.members@.take(n)).len() ==> has_name_at(
                ast,
                ast.statement_symbols(Statement::Interface(x)),
                (#[trigger] ast.interface_member_definitions(x, x.members@.take(n))[k]).at,
            ),
    decreases n,
{
    if n > 0 {
        lemma_interface_definitions_listed(ast, x, n - 1);
        let ms = x.members@;
        assert(ms.take(n).drop_last() =~= ms.take(n - 1));
        let d1 = ast.interface_member_definitions(x, ms.take(n - 1));
        let d2 = ast.interface_member_definition(x, ms[n - 1]);
        let ss = ast.statement_symbols(Statement::Interface(x));
        assert(ss[n] == ast.interface_member_symbol(x, ms[n - 1]));
        assert forall|k: int| 0 <= k < (d1 + d2).len() implies has_name_at(
            ast,
            ss,
            (#[trigger] (d1 + d2)[k]).at,
        ) by {
            if k < d1.len() {
                assert(has_name_at(ast, ss, d1[k].at));
            }
        }
    }
}

proof fn lemma_struct_definitions_listed(ast: MojomAst, stmt: Statement, ms: Seq<StructBody>)
    requires
        stmt is Struct,
    ensures
        forall|k: int|
            0 <= k < ast.struct_member_definitions(stmt->Struct_0, ms).len() ==> has_name_at(
                ast,
                ast.struct_member_symbols(ms),
                (#[trigger] ast.struct_member_definitions(stmt->Struct_0, ms)[k]).at,
            ),
    decreases ms.len(),
{
    if ms.len() > 0 {
        let x = stmt->Struct_0;
        lemma_struct_definitions_listed(ast, stmt, ms.drop_last());
        let d1 = ast.struct_member_definitions(x, ms.drop_last());
        let d2 = ast.struct_member_definition(x, ms.last());
        let s1 = ast.struct_member_symbols(ms.drop_last());
        let s2 = ast.struct_member_symbol(ms.last());
        assert forall|k: int| 0 <= k < (d1 + d2).len() implies has_name_at(
            ast,
            s1 + s2,
            (#[trigger] (d1 + d2)[k]).at,
        ) by {
            let at = (d1 + d2)[k].at;
            if k < d1.len() {
                assert(has_name_at(ast, s1, d1[k].at));
            } else {
                assert(s2[0].name_range == ast.lsp_range_at(at));
            }
            lemma_has_name_in_sum(ast, s1, s2, at);
        }
    }
}

/// Whether no line in `chars` ends with a carriage return.
pub open spec fn no_carriage_returns(chars: Seq<char>) -> bool {
    forall|i: int|
        0 <= i && i + 1 < chars.len() && #[trigger] chars[i] == '\r' ==> chars[i + 1] != '\n'
}

/// Whether what stands in `chars` after the last line feed is ASCII.
pub open spec fn ends_in_ascii(chars: Seq<char>) -> bool {
    forall|i: int|
        chars.len() - text::last_line_len(chars) <= i < chars.len() ==> (#[trigger] chars[i] as u32)
            < 0x80
}

/// The line and the column of a byte lead back to it, where no line before it ends with a
/// carriage return and its own line is ASCII up to it.
pub proof fn position_leads_back(chars: Seq<char>, offset: int)
    requires
        text::boundary(text::utf8(chars), offset),
        no_carriage_returns(text::part(chars, 0, offset)),
        ends_in_ascii(text::part(chars, 0, offset)),
        text::line_feeds(text::part(chars, 0, offset)) <= u32::MAX,
        text::last_line_len(text::part(chars, 0, offset)) <= u32::MAX,
    ensures
        mojomast::offset_of(chars, syntax::lsp_position(chars, offset)) == offset,
{
    let s = text::utf8(chars);
    vstd::utf8::encode_utf8_valid_utf8(chars);
    vstd::utf8::is_char_boundary_start_end_of_seq(s);
    text::lemma_boundary(s, 0);
    text::lemma_part(chars, 0, offset);
    lemma_leads_back(s, 0, text::part(chars, 0, offset));
}

/// The first line feed of `p` is its first character or one after it.
proof fn lemma_front(p: Seq<char>)
    requires
        p.len() > 0,
    ensures
        text::line_feeds(p) == text::line_feeds(p.drop_first()) + (if p[0] == '\n' {
            1nat
        } else {
            0nat
        }),
        text::last_line_len(p) == (if text::line_feeds(p) == 0 {
            p.len()
        } else {
            text::last_line_len(p.drop_first())
        }),
        text::last_line_len(p) <= p.len(),
    decreases p.len(),
{
    if p.len() > 1 {
        lemma_front(p.drop_last());
        assert(p.drop_last().drop_first() =~= p.drop_first().drop_last());
        assert(p.drop_first().last() == p.last());
        assert(p.drop_last()[0] == p[0]);
    } else {
        assert(p.drop_last() =~= Seq::<char>::empty());
        assert(p.drop_first() =~= Seq::<char>::empty());
        assert(text::line_feeds(p.drop_last()) == 0);
        assert(text::last_line_len(p.drop_last()) == 0);
    }
}

/// One byte that is no line feed and stands before no line feed as a carriage return.
proof fn lemma_line_step(s: Seq<u8>, pos: int, n: nat)
    requires
        0 <= pos,
        pos + 1 < s.len(),
        n > 0,
        s[pos] != 0x0a,
        !(s[pos] == 0x0d && s[pos + 1] == 0x0a),
    ensures
        mojomast::lines_len(s, pos, n) == 1 + mojomast::lines_len(s, pos + 1, n),
{
    assert(peg::line_rest(s, pos) == 1 + peg::line_rest(s, pos + 1));
}

proof fn lemma_leads_back(s: Seq<u8>, pos: int, p: Seq<char>)
    requires
        0 <= pos,
        pos + text::utf8(p).len() <= s.len(),
        s.subrange(pos, pos + text::utf8(p).len()) =~= text::utf8(p),
        no_carriage_returns(p),
        ends_in_ascii(p),
    ensures
        mojomast::lines_len(s, pos, text::line_feeds(p)) + text::last_line_len(p) == text::utf8(
            p,
        ).len(),
    decreases p.len(),
{
    let b = text::utf8(p);
    if p.len() > 0 {
        let c = p[0];
        let q = p.drop_first();
        let e = vstd::utf8::encode_scalar(c as u32);
        let n = text::line_feeds(p);
        lemma_front(p);
        lemma_first_byte(c);
        assert(b =~= e + text::utf8(q));
        assert forall|i: int| 0 <= i < b.len() implies #[trigger] b[i] == s[pos + i] by {
            assert(s.subrange(pos, pos + b.len())[i] == b[i]);
        }
        assert(s.subrange(pos + e.len(), pos + e.len() + text::utf8(q).len()) =~= text::utf8(q))
            by {
            assert forall|i: int| 0 <= i < text::utf8(q).len() implies s[pos + e.len() + i]
                == text::utf8(q)[i] by {
                assert(b[e.len() + i] == text::utf8(q)[i]);
            }
        }
        assert(no_carriage_returns(q)) by {
            assert forall|i: int|
                0 <= i && i + 1 < q.len() && #[trigger] q[i] == '\r' implies q[i + 1] != '\n' by {
                assert(p[i + 1] == q[i]);
            }
        }
        if q.len() > 0 {
            lemma_front(q);
        }
        assert(ends_in_ascii(q)) by {
            assert forall|i: int|
                q.len() - text::last_line_len(q) <= i < q.len() implies (#[trigger] q[i] as u32)
                < 0x80 by {
                assert(p[i + 1] == q[i]);
            }
        }
        lemma_leads_back(s, pos + e.len(), q);
        assert(b[0] == e[0]);
        if c == '\n' {
            assert(peg::line_rest(s, pos) == 0);
        } else if n == 0 {
            assert((p[0] as u32) < 0x80);
        } else {
            assert(q.len() > 0);
            lemma_first_byte(q[0]);
            let f = vstd::utf8::encode_scalar(q[0] as u32);
            assert(text::utf8(q) =~= f + text::utf8(q.drop_first()));
            assert(b[e.len() as int] == f[0]);
            if e.len() == 1 {
                if c == '\r' {
                    assert(p[1] == q[0]);
                }
                lemma_line_step(s, pos, n);
            } else {
                assert(b[1] == e[1]);
                lemma_line_step(s, pos, n);
                lemma_line_step(s, pos + 1, n);
                if e.len() > 2 {
                    assert(b[2] == e[2]);
                    lemma_line_step(s, pos + 2, n);
                }
                if e.len() > 3 {
                    assert(b[3] == e[3]);
                    lemma_line_step(s, pos + 3, n);
                }
            }
        }
    }
}

/// The UTF-8 form of a character: one byte, the character itself, or more bytes, none of
/// which is ASCII.
proof fn lemma_first_byte(c: char)
    ensures
        c as u32 == 0x0a <==> c == '\n',
        c as u32 == 0x0d <==> c == '\r',
        1 <= vstd::utf8::encode_scalar(c as u32).len() <= 4,
        (c as u32) < 0x80 <==> vstd::utf8::encode_scalar(c as u32).len() == 1,
        (c as u32) < 0x80 ==> vstd::utf8::encode_scalar(c as u32)[0] == c as u32,
        (c as u32) >= 0x80 ==> forall|i: int|
            0 <= i < vstd::utf8::encode_scalar(c as u32).len() ==> (
            #[trigger] vstd::utf8::encode_scalar(c as u32)[i]) >= 0x80,
{
    let v = c as u32;
    vstd::utf8::char_is_scalar(c);
    assert(v < 0x80 ==> (v & 0x7f) as u8 == v) by (bit_vector);
    assert(0x80u8 <= (0xc0u8 | ((v >> 6) & 0x1f) as u8)) by (bit_vector);
    assert(0x80u8 <= (0xe0u8 | ((v >> 12) & 0x0f) as u8)) by (bit_vector);
    assert(0x80u8 <= (0xf0u8 | ((v >> 18) & 0x07) as u8)) by (bit_vector);
    assert(0x80u8 <= (0x80u8 | (v & 0x3f) as u8)) by (bit_vector);
    assert(0x80u8 <= (0x80u8 | ((v >> 6) & 0x3f) as u8)) by (bit_vector);
    assert(0x80u8 <= (0x80u8 | ((v >> 12) & 0x3f) as u8)) by (bit_vector);
}

/// Whether the symbol with the number `k` of the document at `uri` is one that a query for
/// `target` asks for.
pub open spec fn is_asked_for(
    symbols: UriMap<ParsedSymbols>,
    target: Seq<char>,
    uri: Seq<char>,
    k: int,
) -> bool {
    &&& symbols.at(uri) matches Some(parsed)
    &&& 0 <= k < parsed.symbol_views().len()
    &&& workspace::query_matches(parsed.symbol_views()[k].name, target)
}

/// A query finds every symbol that it asks for in the documents that are known, and nothing
/// else.
pub proof fn query_finds_what_it_asks_for(symbols: UriMap<ParsedSymbols>, target: Seq<char>)
    requires
        symbols.wf(),
    ensures
        forall|uri: Seq<char>, k: int| #[trigger]
            is_asked_for(symbols, target, uri, k) ==> workspace::all_query_results(
                symbols.entries@,
                target,
            ).contains(workspace::query_result(uri, symbols.at(uri)->0.symbol_views()[k])),
        forall|r: lsp::SymbolInformationView| #[trigger]
            workspace::all_query_results(symbols.entries@, target).contains(r) ==> exists|
                uri: Seq<char>,
                k: int,
            | #[trigger]
                is_asked_for(symbols, target, uri, k) && r == workspace::query_result(
                    uri,
                    symbols.at(uri)->0.symbol_views()[k],
                ),
{
    let es = symbols.entries@;
    let all = workspace::all_query_results(es, target);
    assert forall|uri: Seq<char>, k: int| #[trigger]
        is_asked_for(symbols, target, uri, k) implies all.contains(
        workspace::query_result(uri, symbols.at(uri)->0.symbol_views()[k]),
    ) by {
        let i = lemma_lookup_entry(es, uri);
        lemma_all_find(es, target, i, k);
    }
    assert forall|r: lsp::SymbolInformationView| #[trigger] all.contains(r) implies exists|
        uri: Seq<char>,
        k: int,
    | #[trigger]
        is_asked_for(symbols, target, uri, k) && r == workspace::query_result(
            uri,
            symbols.at(uri)->0.symbol_views()[k],
        ) by {
        let j = choose|j: int| 0 <= j < all.len() && all[j] == r;
        let (i, k) = lemma_all_find_only(es, target, j);
        uri_map::lemma_present(es, es[i].0@, i);
        assert(is_asked_for(symbols, target, es[i].0@, k));
    }
}

/// What is known of a document stands in an entry for it.
proof fn lemma_lookup_entry<V>(es: Seq<(String, V)>, uri: Seq<char>) -> (i: int)
    requires
        uri_map::lookup(es, uri) is Some,
    ensures
        0 <= i < es.len(),
        es[i].0@ == uri,
        uri_map::lookup(es, uri) == Some(es[i].1),
    decreases es.len(),
{
    if es.last().0@ == uri {
        es.len() - 1
    } else {
        lemma_lookup_entry(es.drop_last(), uri)
    }
}

proof fn lemma_find(uri: Seq<char>, ss: Seq<SymbolView>, target: Seq<char>, k: int)
    requires
        0 <= k < ss.len(),
        workspace::query_matches(ss[k].name, target),
    ensures
        workspace::query_results(uri, ss, target).contains(workspace::query_result(uri, ss[k])),
    decreases ss.len(),
{
    let all = workspace::query_results(uri, ss, target);
    if k == ss.len() - 1 {
        assert(all.last() == workspace::query_result(uri, ss[k]));
    } else {
        let front = ss.drop_last();
        assert(front[k] == ss[k]);
        lemma_find(uri, front, target, k);
        let before = workspace::query_results(uri, front, target);
        let j = choose|j: int|
            0 <= j < before.len() && before[j] == workspace::query_result(uri, ss[k]);
        assert(all[j] == before[j]);
    }
}

proof fn lemma_find_only(uri: Seq<char>, ss: Seq<SymbolView>, target: Seq<char>, j: int) -> (k: int)
    requires
        0 <= j < workspace::query_results(uri, ss, target).len(),
    ensures
        0 <= k < ss.len(),
        workspace::query_matches(ss[k].name, target),
        workspace::query_results(uri, ss, target)[j] == workspace::query_result(uri, ss[k]),
    decreases ss.len(),
{
    let front = ss.drop_last();
    if j < workspace::query_results(uri, front, target).len() {
        let k = lemma_find_only(uri, front, target, j);
        assert(front[k] == ss[k]);
        k
    } else {
        ss.len() - 1
    }
}

proof fn lemma_all_find(es: Seq<(String, ParsedSymbols)>, target: Seq<char>, i: int, k: int)
    requires
        0 <= i < es.len(),
        0 <= k < es[i].1.symbol_views().len(),
        workspace::query_matches(es[i].1.symbol_views()[k].name, target),
    ensures
        workspace::all_query_results(es, target).contains(
            workspace::query_result(es[i].0@, es[i].1.symbol_views()[k]),
        ),
    decreases es.len(),
{
    let all = workspace::all_query_results(es, target);
    let r = workspace::query_result(es[i].0@, es[i].1.symbol_views()[k]);
    let front = workspace::all_query_results(es.drop_last(), target);
    if i == es.len() - 1 {
        lemma_find(es[i].0@, es[i].1.symbol_views(), target, k);
        let own = workspace::query_results(es[i].0@, es[i].1.symbol_views(), target);
        let j = choose|j: int| 0 <= j < own.len() && own[j] == r;
        assert(all[front.len() + j] == own[j]);
    } else {
        assert(es.drop_last()[i] == es[i]);
        lemma_all_find(es.drop_last(), target, i, k);
        let j = choose|j: int| 0 <= j < front.len() && front[j] == r;
        assert(all[j] == front[j]);
    }
}

proof fn lemma_all_find_only(es: Seq<(String, ParsedSymbols)>, target: Seq<char>, j: int) -> (r: (
    int,
    int,
))
    requires
        0 <= j < workspace::all_query_results(es, target).len(),
    ensures
        0 <= r.0 < es.len(),
        0 <= r.1 < es[r.0].1.symbol_views().len(),
        workspace::query_matches(es[r.0].1.symbol_views()[r.1].name, target),
        workspace::all_query_results(es, target)[j] == workspace::query_result(
            es[r.0].0@,
            es[r.0].1.symbol_views()[r.1],
        ),
    decreases es.len(),
{
    let front = workspace::all_query_results(es.drop_last(), target);
    if j < front.len() {
        let r = lemma_all_find_only(es.drop_last(), target, j);
        assert(es.drop_last()[r.0] == es[r.0]);
        r
    } else {
        let e = es.last();
        (
            es.len() - 1,
            lemma_find_only(e.0@, e.1.symbol_views(), target, j - front.len()),
        )
    }
}

} // verus!
