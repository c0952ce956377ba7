//! What a document defines, where, and what stands at its places.
use vstd::prelude::*;

use crate::definition;
use crate::document_symbol::{Class, SymbolView};
use crate::lsp;
use crate::mojomast;
use crate::mojomast::MojomAst;
use crate::syntax::{Interface, InterfaceMember, Range, Statement, Struct, StructBody};

verus! {

/// Whether `s` is the symbol of this class with the name at `name` and the range `range`.
pub open spec fn is_symbol(
    ast: MojomAst,
    s: SymbolView,
    class: Class,
    name: Range,
    range: Range,
) -> bool {
    &&& s.class == class
    &&& s.name == ast.text_at(name)
    &&& s.name_range == ast.lsp_range_at(name)
    &&& s.range == ast.lsp_range_at(range)
}

/// The symbols of two lists of statements, one behind the other, are those of the first and
/// then those of the second.
pub proof fn symbols_are_listed_in_their_order(ast: MojomAst, a: Seq<Statement>, b: Seq<Statement>)
    ensures
        ast.symbols_of(a + b) == ast.symbols_of(a) + ast.symbols_of(b),
        ast.document_symbols() == ast.symbols_of(ast.mojom.stmts@),
    decreases b.len(),
{
    if b.len() == 0 {
        assert(a + b =~= a);
        assert(ast.symbols_of(a) + ast.symbols_of(b) =~= ast.symbols_of(a));
    } else {
        assert((a + b).drop_last() =~= a + b.drop_last());
        symbols_are_listed_in_their_order(ast, a, b.drop_last());
        assert(ast.symbols_of(a + b) =~= ast.symbols_of(a) + ast.symbols_of(b));
    }
}

/// Whether `s` is the symbol of the member `m` of the interface `x`.
pub open spec fn is_member_symbol(
    ast: MojomAst,
    s: SymbolView,
    x: Interface,
    m: InterfaceMember,
) -> bool {
    match m {
        InterfaceMember::Const(y) => is_symbol(ast, s, Class::Const, y.name, y.range),
        InterfaceMember::Enum(y) => is_symbol(ast, s, Class::Enum, y.name, y.range),
        InterfaceMember::Method(y) => is_symbol(
            ast,
            s,
            Class::Method(ast.text_at(x.name)),
            y.name,
            y.range,
        ),
    }
}

/// How many of the first `j` of `ms` are no fields.
pub open spec fn listed_before(ms: Seq<StructBody>, j: int) -> nat
    decreases j,
{
    if j <= 0 {
        0
    } else {
        listed_before(ms, j - 1) + (if ms[j - 1] is Field {
            0nat
        } else {
            1nat
        })
    }
}

proof fn lemma_listed_before(a: Seq<StructBody>, b: Seq<StructBody>, j: int)
    requires
        j <= a.len(),
        j <= b.len(),
        forall|k: int| 0 <= k < j ==> a[k] == b[k],
    ensures
        listed_before(a, j) == listed_before(b, j),
    decreases j,
{
    if j > 0 {
        lemma_listed_before(a, b, j - 1);
    }
}

/// Whether `s` is the symbol of the member `m` of a struct.
pub open spec fn is_struct_member_symbol(ast: MojomAst, s: SymbolView, m: StructBody) -> bool {
    match m {
        StructBody::Const(y) => is_symbol(ast, s, Class::Const, y.name, y.range),
        StructBody::Enum(y) => is_symbol(ast, s, Class::Enum, y.name, y.range),
        StructBody::Field(_) => false,
    }
}

proof fn lemma_struct_symbols(ast: MojomAst, ms: Seq<StructBody>)
    ensures
        ast.struct_member_symbols(ms).len() == listed_before(ms, ms.len() as int),
        forall|j: int|
            0 <= j < ms.len() && !((#[trigger] ms[j]) is Field) ==> {
                &&& listed_before(ms, j) < ast.struct_member_symbols(ms).len()
                &&& is_struct_member_symbol(
                    ast,
                    ast.struct_member_symbols(ms)[listed_before(ms, j) as int],
                    ms[j],
                )
            },
    decreases ms.len(),
{
    if ms.len() > 0 {
        let front = ms.drop_last();
        let n = front.len() as int;
        lemma_struct_symbols(ast, front);
        lemma_listed_before(ms, front, n);
        let all = ast.struct_member_symbols(ms);
        assert forall|j: int| 0 <= j < ms.len() && !((#[trigger] ms[j]) is Field) implies {
            &&& listed_before(ms, j) < all.len()
            &&& is_struct_member_symbol(ast, all[listed_before(ms, j) as int], ms[j])
        } by {
            if j < n {
                assert(front[j] == ms[j]);
                lemma_listed_before(ms, front, j);
            }
        }
    }
}

/// The symbols of a statement: none for a module statement or an import, one for every other
/// statement, and behind it one for each member of an interface, and for each member of a struct
/// but its fields, in their order.
pub proof fn symbols_of_a_statement(ast: MojomAst, stmt: Statement)
    ensures
        ({
            let ss = ast.symbols_of(seq![stmt]);
            match stmt {
                Statement::Module(_) => ss.len() == 0,
                Statement::Import(_) => ss.len() == 0,
                Statement::Interface(x) => {
                    &&& ss.len() == 1 + x.members@.len()
                    &&& is_symbol(ast, ss[0], Class::Interface, x.name, x.range)
                    &&& forall|j: int|
                        0 <= j < x.members@.len() ==> is_member_symbol(
                            ast,
                            ss[1 + j],
                            x,
                            #[trigger] x.members@[j],
                        )
                },
                Statement::Struct(x) => {
                    &&& ss.len() == 1 + listed_before(x.members@, x.members@.len() as int)
                    &&& is_symbol(ast, ss[0], Class::Struct, x.name, x.range)
                    &&& forall|j: int|
                        0 <= j < x.members@.len() && !((#[trigger] x.members@[j]) is Field)
                            ==> listed_before(x.members@, j) < ss.len() - 1
                            && is_struct_member_symbol(
                            ast,
                            ss[(1 + listed_before(x.members@, j)) as int],
                            x.members@[j],
                        )
                },
                Statement::Union(x) => ss.len() == 1 && is_symbol(
                    ast,
                    ss[0],
                    Class::Union,
                    x.name,
                    x.range,
                ),
                Statement::Enum(x) => ss.len() == 1 && is_symbol(
                    ast,
                    ss[0],
                    Class::Enum,
                    x.name,
                    x.range,
                ),
                Statement::Const(x) => ss.len() == 1 && is_symbol(
                    ast,
                    ss[0],
                    Class::Const,
                    x.name,
                    x.range,
                ),
            }
        }),
{
    let one = seq![stmt];
    assert(one.drop_last() =~= Seq::<Statement>::empty());
    assert(ast.symbols_of(one.drop_last()) =~= Seq::empty());
    let ss = ast.symbols_of(one);
    assert(ss =~= ast.statement_symbols(stmt));
    match stmt {
        Statement::Struct(x) => {
            lemma_struct_symbols(ast, x.members@);
            assert forall|j: int|
                0 <= j < x.members@.len() && !((#[trigger] x.members@[j]) is Field) implies
                listed_before(x.members@, j) < ss.len() - 1 && is_struct_member_symbol(
                ast,
                ss[(1 + listed_before(x.members@, j)) as int],
                x.members@[j],
            ) by {
                assert(ss[(1 + listed_before(x.members@, j)) as int] == ast.struct_member_symbols(
                    x.members@,
                )[listed_before(x.members@, j) as int]);
            }
        },
        _ => {},
    }
}

/// Where the name stands that `stmt` defines itself, for -1, or by its member with the number
/// `j`.
pub open spec fn name_at(stmt: Statement, j: int) -> Option<Range> {
    match stmt {
        Statement::Interface(x) => if j == -1 {
            Some(x.name)
        } else if 0 <= j < x.members@.len() {
            match x.members@[j] {
                InterfaceMember::Const(y) => Some(y.name),
                InterfaceMember::Enum(y) => Some(y.name),
                InterfaceMember::Method(_) => None,
            }
        } else {
            None
        },
        Statement::Struct(x) => if j == -1 {
            Some(x.name)
        } else if 0 <= j < x.members@.len() {
            match x.members@[j] {
                StructBody::Const(y) => Some(y.name),
                StructBody::Enum(y) => Some(y.name),
                StructBody::Field(_) => None,
            }
        } else {
            None
        },
        Statement::Union(x) => if j == -1 {
            Some(x.name)
        } else {
            None
        },
        Statement::Enum(x) => if j == -1 {
            Some(x.name)
        } else {
            None
        },
        Statement::Const(x) => if j == -1 {
            Some(x.name)
        } else {
            None
        },
        _ => None,
    }
}

/// Whether `ident` names what `stmt` defines itself, for -1, or by its member with the number
/// `j`: a member is named with the name of the statement and a dot before its own.
pub open spec fn defines(ast: MojomAst, stmt: Statement, j: int, ident: Seq<char>) -> bool {
    &&& name_at(stmt, j) matches Some(at)
    &&& if j == -1 {
        ident == ast.text_at(at)
    } else {
        ident == ast.text_at(name_at(stmt, -1)->0) + seq!['.'] + ast.text_at(at)
    }
}

/// Whether `at` is the first place among the statement's own name and those of its members
/// below `n` that `ident` names.
spec fn first_in(
    ast: MojomAst,
    stmt: Statement,
    ident: Seq<char>,
    n: int,
    at: Option<Range>,
) -> bool {
    match at {
        Some(at) => exists|j: int|
            -1 <= j < n && #[trigger] defines(ast, stmt, j, ident) && name_at(stmt, j) == Some(at)
                && forall|k: int| -1 <= k < j ==> !#[trigger] defines(ast, stmt, k, ident),
        None => forall|j: int| -1 <= j < n ==> !#[trigger] defines(ast, stmt, j, ident),
    }
}

proof fn lemma_one_more(
    ast: MojomAst,
    stmt: Statement,
    ident: Seq<char>,
    n: int,
    ds: Seq<definition::Definition>,
    d: Seq<definition::Definition>,
)
    requires
        -1 <= n,
        first_in(ast, stmt, ident, n, definition::first_named(ds, ident)),
        d.len() <= 1,
        d.len() == 1 ==> name_at(stmt, n) == Some(d[0].at) && (d[0].name == ident <==> defines(
            ast,
            stmt,
            n,
            ident,
        )),
        d.len() == 0 ==> name_at(stmt, n) is None,
    ensures
        first_in(ast, stmt, ident, n + 1, definition::first_named(ds + d, ident)),
{
    definition::lemma_first_named(ds, d, ident);
    definition::lemma_one_named(d, ident);
    match definition::first_named(ds, ident) {
        Some(at) => {
            let j = choose|j: int|
                -1 <= j < n && #[trigger] defines(ast, stmt, j, ident) && name_at(stmt, j) == Some(
                    at,
                ) && forall|k: int| -1 <= k < j ==> !#[trigger] defines(ast, stmt, k, ident);
            assert(defines(ast, stmt, j, ident));
        },
        None => {
            if d.len() == 1 && d[0].name == ident {
                assert(defines(ast, stmt, n, ident));
            }
        },
    }
}

proof fn lemma_interface_defines(ast: MojomAst, stmt: Statement, ident: Seq<char>, n: int)
    requires
        stmt is Interface,
        0 <= n <= stmt->Interface_0.members@.len(),
    ensures
        ({
            let x = stmt->Interface_0;
            let own = seq![definition::Definition { name: ast.text_at(x.name), at: x.name }];
            first_in(
                ast,
                stmt,
                ident,
                n,
                definition::first_named(
                    own + ast.interface_member_definitions(x, x.members@.take(n)),
                    ident,
                ),
            )
        }),
    decreases n,
{
    reveal_strlit(".");
    assert("."@ =~= seq!['.']);
    let x = stmt->Interface_0;
    let own = seq![definition::Definition { name: ast.text_at(x.name), at: x.name }];
    let none = Seq::<definition::Definition>::empty();
    if n == 0 {
        assert(definition::first_named(none, ident) is None);
        lemma_one_more(ast, stmt, ident, -1, none, own);
        assert(none + own =~= own);
        assert(own + ast.interface_member_definitions(x, x.members@.take(0)) =~= own);
    } else {
        lemma_interface_defines(ast, stmt, ident, n - 1);
        let ms = x.members@;
        assert(ms.take(n).drop_last() =~= ms.take(n - 1));
        let before = own + ast.interface_member_definitions(x, ms.take(n - 1));
        let d = ast.interface_member_definition(x, ms[n - 1]);
        lemma_one_more(ast, stmt, ident, n - 1, before, d);
        assert(before + d =~= own + ast.interface_member_definitions(x, ms.take(n)));
    }
}

proof fn lemma_struct_defines(ast: MojomAst, stmt: Statement, ident: Seq<char>, n: int)
    requires
        stmt is Struct,
        0 <= n <= stmt->Struct_0.members@.len(),
    ensures
        ({
            let x = stmt->Struct_0;
            let own = seq![definition::Definition { name: ast.text_at(x.name), at: x.name }];
            first_in(
                ast,
                stmt,
                ident,
                n,
                definition::first_named(
                    own + ast.struct_member_definitions(x, x.members@.take(n)),
                    ident,
                ),
            )
        }),
    decreases n,
{
    reveal_strlit(".");
    assert("."@ =~= seq!['.']);
    let x = stmt->Struct_0;
    let own = seq![definition::Definition { name: ast.text_at(x.name), at: x.name }];
    let none = Seq::<definition::Definition>::empty();
    if n == 0 {
        assert(definition::first_named(none, ident) is None);
        lemma_one_more(ast, stmt, ident, -1, none, own);
        assert(none + own =~= own);
        assert(own + ast.struct_member_definitions(x, x.members@.take(0)) =~= own);
    } else {
        lemma_struct_defines(ast, stmt, ident, n - 1);
        let ms = x.members@;
        assert(ms.take(n).drop_last() =~= ms.take(n - 1));
        let before = own + ast.struct_member_definitions(x, ms.take(n - 1));
        let d = ast.struct_member_definition(x, ms[n - 1]);
        lemma_one_more(ast, stmt, ident, n - 1, before, d);
        assert(before + d =~= own + ast.struct_member_definitions(x, ms.take(n)));
    }
}

/// The number of members of a statement.
pub open spec fn members(stmt: Statement) -> int {
    match stmt {
        Statement::Interface(x) => x.members@.len() as int,
        Statement::Struct(x) => x.members@.len() as int,
        _ => 0,
    }
}

proof fn lemma_statement_defines(ast: MojomAst, stmt: Statement, ident: Seq<char>)
    ensures
        first_in(
            ast,
            stmt,
            ident,
            members(stmt),
            definition::first_named(ast.statement_definitions(stmt), ident),
        ),
{
    let none = Seq::<definition::Definition>::empty();
    assert(definition::first_named(none, ident) is None);
    match stmt {
        Statement::Interface(x) => {
            lemma_interface_defines(ast, stmt, ident, x.members@.len() as int);
            assert(x.members@.take(x.members@.len() as int) =~= x.members@);
        },
        Statement::Struct(x) => {
            lemma_struct_defines(ast, stmt, ident, x.members@.len() as int);
            assert(x.members@.take(x.members@.len() as int) =~= x.members@);
        },
        Statement::Module(_) => {},
        Statement::Import(_) => {},
        _ => {
            let own = ast.statement_definitions(stmt);
            lemma_one_more(ast, stmt, ident, -1, none, own);
            assert(none + own =~= own);
        },
    }
}

/// Whether the statement with the number `i` defines `ident` at `at` and nothing before does.
pub open spec fn defines_first(
    ast: MojomAst,
    stmts: Seq<Statement>,
    ident: Seq<char>,
    i: int,
    j: int,
) -> bool {
    &&& 0 <= i < stmts.len()
    &&& defines(ast, stmts[i], j, ident)
    &&& forall|k: int| k < j ==> !#[trigger] defines(ast, stmts[i], k, ident)
    &&& forall|h: int, k: int|
        0 <= h < i ==> !#[trigger] defines(ast, stmts[h], k, ident)
}

proof fn lemma_defines(ast: MojomAst, stmts: Seq<Statement>, ident: Seq<char>)
    ensures
        match definition::first_named(ast.definitions_of(stmts), ident) {
            Some(at) => exists|i: int, j: int| #[trigger]
                defines_first(ast, stmts, ident, i, j) && name_at(stmts[i], j) == Some(at),
            None => forall|i: int, j: int|
                0 <= i < stmts.len() ==> !#[trigger] defines(ast, stmts[i], j, ident),
        },
    decreases stmts.len(),
{
    if stmts.len() > 0 {
        let front = stmts.drop_last();
        let n = front.len() as int;
        let last = stmts.last();
        let a = ast.definitions_of(front);
        let b = ast.statement_definitions(last);
        lemma_defines(ast, front, ident);
        lemma_statement_defines(ast, last, ident);
        definition::lemma_first_named(a, b, ident);
        match definition::first_named(a, ident) {
            Some(at) => {
                let (i, j) = choose|i: int, j: int| #[trigger]
                    defines_first(ast, front, ident, i, j) && name_at(front[i], j) == Some(at);
                assert(front[i] == stmts[i]);
                assert forall|h: int, k: int| 0 <= h < i implies !#[trigger] defines(
                    ast,
                    stmts[h],
                    k,
                    ident,
                ) by {
                    assert(front[h] == stmts[h]);
                    assert(!defines(ast, front[h], k, ident));
                }
                assert(defines_first(ast, stmts, ident, i, j));
            },
            None => {
                assert forall|h: int, k: int| 0 <= h < n implies !#[trigger] defines(
                    ast,
                    stmts[h],
                    k,
                    ident,
                ) by {
                    assert(front[h] == stmts[h]);
                    assert(!defines(ast, front[h], k, ident));
                }
                match definition::first_named(b, ident) {
                    Some(at) => {
                        let j = choose|j: int|
                            -1 <= j < members(last) && #[trigger] defines(ast, last, j, ident)
                                && name_at(last, j) == Some(at) && forall|k: int|
                                -1 <= k < j ==> !#[trigger] defines(ast, last, k, ident);
                        assert(defines_first(ast, stmts, ident, n, j));
                    },
                    None => {},
                }
            },
        }
    }
}

/// A document defines an identifier where it names a statement (but a module statement or an
/// import), or, with the name of an interface or a struct and a dot before it, a constant or an
/// enum in it. The definition is the name of the first of these, and there is one as soon as
/// there is any.
pub proof fn definition_is_the_first_of_that_name(ast: MojomAst, ident: Seq<char>)
    ensures
        match ast.definition(ident) {
            Some(range) => exists|i: int, j: int| #[trigger]
                defines_first(ast, ast.mojom.stmts@, ident, i, j) && range == ast.lsp_range_at(
                    name_at(ast.mojom.stmts@[i], j)->0,
                ),
            None => forall|i: int, j: int|
                0 <= i < ast.mojom.stmts@.len() ==> !#[trigger] defines(
                    ast,
                    ast.mojom.stmts@[i],
                    j,
                    ident,
                ),
        },
{
    let stmts = ast.mojom.stmts@;
    lemma_defines(ast, stmts, ident);
    if let Some(at) = definition::first_named(ast.definitions_of(stmts), ident) {
        let (i, j) = choose|i: int, j: int| #[trigger]
            defines_first(ast, stmts, ident, i, j) && name_at(stmts[i], j) == Some(at);
        assert(defines_first(ast, stmts, ident, i, j));
    }
}

/// Whether the byte at `offset` is one of those of `r`.
pub open spec fn is_inside(offset: int, r: Range) -> bool {
    r.start <= offset && offset < r.end
}

/// Whether the name of the interface `stmt`, for -1, or of its method with the number `j`
/// stands at `offset`, inside that interface.
pub open spec fn names_at(stmt: Statement, j: int, offset: int) -> bool {
    &&& stmt matches Statement::Interface(x)
    &&& is_inside(offset, x.range)
    &&& if j == -1 {
        is_inside(offset, x.name)
    } else {
        0 <= j < x.members@.len() && (x.members@[j] matches InterfaceMember::Method(m)
            && is_inside(offset, m.name))
    }
}

/// Whether `s` is the symbol of the interface `x`, for -1, or of its method with the number
/// `j`.
pub open spec fn is_symbol_of(ast: MojomAst, s: SymbolView, x: Interface, j: int) -> bool {
    if j == -1 {
        is_symbol(ast, s, Class::Interface, x.name, x.range)
    } else {
        is_member_symbol(ast, s, x, x.members@[j])
    }
}

proof fn lemma_method_names(ast: MojomAst, stmt: Statement, offset: int, from: int)
    requires
        stmt is Interface,
        is_inside(offset, stmt->Interface_0.range),
        0 <= from <= stmt->Interface_0.members@.len(),
    ensures
        ({
            let x = stmt->Interface_0;
            match ast.method_at(x, x.members@.skip(from), offset) {
                Some(s) => exists|j: int|
                    from <= j && #[trigger] names_at(stmt, j, offset) && is_symbol_of(ast, s, x, j)
                        && forall|k: int| from <= k < j ==> !#[trigger] names_at(stmt, k, offset),
                None => forall|j: int| from <= j ==> !#[trigger] names_at(stmt, j, offset),
            }
        }),
    decreases stmt->Interface_0.members@.len() - from,
{
    let x = stmt->Interface_0;
    let ms = x.members@;
    if from < ms.len() {
        assert(ms.skip(from)[0] == ms[from]);
        assert(ms.skip(from).skip(1) =~= ms.skip(from + 1));
        lemma_method_names(ast, stmt, offset, from + 1);
        if names_at(stmt, from, offset) {
        } else {
            match ast.method_at(x, ms.skip(from + 1), offset) {
                Some(s) => {
                    let j = choose|j: int|
                        from + 1 <= j && #[trigger] names_at(stmt, j, offset) && is_symbol_of(
                            ast,
                            s,
                            x,
                            j,
                        ) && forall|k: int|
                            from + 1 <= k < j ==> !#[trigger] names_at(stmt, k, offset);
                    assert(names_at(stmt, j, offset));
                },
                None => {},
            }
        }
    }
}

/// Whether the interface with the number `i`, or its method with the number `j`, is the first
/// whose name stands at `offset`.
pub open spec fn names_first(stmts: Seq<Statement>, offset: int, i: int, j: int) -> bool {
    &&& 0 <= i < stmts.len()
    &&& j >= -1
    &&& names_at(stmts[i], j, offset)
    &&& forall|k: int| -1 <= k < j ==> !#[trigger] names_at(stmts[i], k, offset)
    &&& forall|h: int, k: int| 0 <= h < i && -1 <= k ==> !#[trigger] names_at(stmts[h], k, offset)
}

proof fn lemma_names(ast: MojomAst, stmts: Seq<Statement>, offset: int, from: int)
    requires
        0 <= from <= stmts.len(),
        forall|h: int, k: int|
            0 <= h < from && -1 <= k ==> !#[trigger] names_at(stmts[h], k, offset),
    ensures
        match ast.symbol_at(stmts.skip(from), offset) {
            Some(s) => exists|i: int, j: int| #[trigger]
                names_first(stmts, offset, i, j) && is_symbol_of(
                    ast,
                    s,
                    stmts[i]->Interface_0,
                    j,
                ),
            None => forall|i: int, j: int|
                0 <= i < stmts.len() && -1 <= j ==> !#[trigger] names_at(stmts[i], j, offset),
        },
    decreases stmts.len() - from,
{
    if from < stmts.len() {
        let stmt = stmts[from];
        assert(stmts.skip(from)[0] == stmt);
        assert(stmts.skip(from).skip(1) =~= stmts.skip(from + 1));
        let found = match stmt {
            Statement::Interface(x) => ast.symbol_in(x, offset),
            _ => None,
        };
        if let Statement::Interface(x) = stmt {
            if is_inside(offset, x.range) {
                assert(x.members@.skip(0) =~= x.members@);
                lemma_method_names(ast, stmt, offset, 0);
            }
        }
        match found {
            Some(s) => {
                let x = stmt->Interface_0;
                if names_at(stmt, -1, offset) {
                    assert(names_first(stmts, offset, from, -1));
                } else {
                    let j = choose|j: int|
                        0 <= j && #[trigger] names_at(stmt, j, offset) && is_symbol_of(ast, s, x, j)
                            && forall|k: int| 0 <= k < j ==> !#[trigger] names_at(stmt, k, offset);
                    assert(names_first(stmts, offset, from, j));
                }
            },
            None => {
                assert forall|h: int, k: int|
                    0 <= h < from + 1 && -1 <= k implies !#[trigger] names_at(
                    stmts[h],
                    k,
                    offset,
                ) by {
                    if h == from {
                        if names_at(stmt, k, offset) {
                            assert(k == -1 || !names_at(stmt, k, offset));
                        }
                    }
                }
                lemma_names(ast, stmts, offset, from + 1);
            },
        }
    }
}

/// What stands at a position is the first interface, or the first method in its interface, whose
/// name holds the byte there, with its name, its class and its places; and there is something as
/// soon as such a name holds it.
pub proof fn symbol_at_a_position_is_named_there(ast: MojomAst, position: lsp::Position)
    ensures
        ({
            let stmts = ast.mojom.stmts@;
            let offset = mojomast::offset_of(ast.text@, position) as int;
            match ast.symbol_at_position(position) {
                Some(s) => exists|i: int, j: int| #[trigger]
                    names_first(stmts, offset, i, j) && is_symbol_of(
                        ast,
                        s,
                        stmts[i]->Interface_0,
                        j,
                    ),
                None => forall|i: int, j: int|
                    0 <= i < stmts.len() && -1 <= j ==> !#[trigger] names_at(stmts[i], j, offset),
            }
        }),
{
    let stmts = ast.mojom.stmts@;
    let offset = mojomast::offset_of(ast.text@, position) as int;
    assert(stmts.skip(0) =~= stmts);
    lemma_names(ast, stmts, offset, 0);
}

/// Whether `stmt` is an import whose path stands at `offset`.
pub open spec fn imports_at(stmt: Statement, offset: int) -> bool {
    stmt matches Statement::Import(m) && is_inside(offset, m.path)
}

proof fn lemma_import_at(ast: MojomAst, stmts: Seq<Statement>, offset: int)
    ensures
        match ast.import_path_at(stmts, offset) {
            Some(path) => exists|i: int|
                #![trigger stmts[i]]
                0 <= i < stmts.len() && imports_at(stmts[i], offset) && path == ast.path_at(
                    stmts[i]->Import_0,
                ) && forall|k: int| 0 <= k < i ==> !imports_at(#[trigger] stmts[k], offset),
            None => forall|i: int|
                0 <= i < stmts.len() ==> !imports_at(#[trigger] stmts[i], offset),
        },
    decreases stmts.len(),
{
    if stmts.len() > 0 {
        let rest = stmts.skip(1);
        lemma_import_at(ast, rest, offset);
        if !imports_at(stmts[0], offset) {
            match ast.import_path_at(rest, offset) {
                Some(path) => {
                    let i = choose|i: int|
                        #![trigger rest[i]]
                        0 <= i < rest.len() && imports_at(rest[i], offset) && path == ast.path_at(
                            rest[i]->Import_0,
                        ) && forall|k: int| 0 <= k < i ==> !imports_at(#[trigger] rest[k], offset);
                    assert(stmts[i + 1] == rest[i]);
                    assert forall|k: int| 0 <= k < i + 1 implies !imports_at(
                        #[trigger] stmts[k],
                        offset,
                    ) by {
                        if k > 0 {
                            assert(rest[k - 1] == stmts[k]);
                        }
                    }
                },
                None => {
                    assert forall|i: int| 0 <= i < stmts.len() implies !imports_at(
                        #[trigger] stmts[i],
                        offset,
                    ) by {
                        if i > 0 {
                            assert(rest[i - 1] == stmts[i]);
                        }
                    }
                },
            }
        }
    }
}

/// The import at a position is the first one whose path, with its quotes, holds the byte there;
/// and there is one as soon as such a path holds it.
pub proof fn import_at_a_position_stands_there(ast: MojomAst, position: lsp::Position)
    ensures
        ({
            let stmts = ast.mojom.stmts@;
            let offset = mojomast::offset_of(ast.text@, position) as int;
            match ast.import_path_at_position(position) {
                Some(path) => exists|i: int|
                    #![trigger stmts[i]]
                    0 <= i < stmts.len() && imports_at(stmts[i], offset) && path == ast.path_at(
                        stmts[i]->Import_0,
                    ) && forall|k: int| 0 <= k < i ==> !imports_at(#[trigger] stmts[k], offset),
                None => forall|i: int|
                    0 <= i < stmts.len() ==> !imports_at(#[trigger] stmts[i], offset),
            }
        }),
{
    lemma_import_at(
        ast,
        ast.mojom.stmts@,
        mojomast::offset_of(ast.text@, position) as int,
    );
}

/// A range holds as many places as it is long: from its first one on, and not its end.
pub proof fn range_holds_its_places(r: Range, n: int)
    requires
        r.start <= r.end,
    ensures
        mojomast::holds(r, r.start + n) <==> 0 <= n < r.end - r.start,
{
}

} // verus!
