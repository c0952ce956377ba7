//! What the check of a document says of its module statements and its imports.
use vstd::prelude::*;

use crate::joined;
use crate::lsp;
use crate::lsp::DiagnosticSeverity;
use crate::mojomast;
use crate::mojomast::{ImportResolution, MojomAst};
use crate::places;
use crate::syntax::{Import, Statement};
use crate::text;
use crate::workspace;

verus! {

/// The module statements and the imports of two lists of statements, one behind the other, are
/// those of the first and then those of the second.
pub proof fn statements_are_taken_in_their_order(a: Seq<Statement>, b: Seq<Statement>)
    ensures
        mojomast::modules(a + b) == mojomast::modules(a) + mojomast::modules(b),
        mojomast::imports(a + b) == mojomast::imports(a) + mojomast::imports(b),
    decreases b.len(),
{
    if b.len() == 0 {
        assert(a + b =~= a);
        assert(mojomast::modules(a) + mojomast::modules(b) =~= mojomast::modules(a));
        assert(mojomast::imports(a) + mojomast::imports(b) =~= mojomast::imports(a));
    } else {
        assert((a + b).drop_last() =~= a + b.drop_last());
        statements_are_taken_in_their_order(a, b.drop_last());
        assert(mojomast::modules(a + b) =~= mojomast::modules(a) + mojomast::modules(b));
        assert(mojomast::imports(a + b) =~= mojomast::imports(a) + mojomast::imports(b));
    }
}

/// A module statement counts as one, an import as one, and no other statement as either.
pub proof fn statement_counts_as_what_it_is(stmt: Statement)
    ensures
        match stmt {
            Statement::Module(m) => mojomast::modules(seq![stmt]) == seq![m],
            _ => mojomast::modules(seq![stmt]).len() == 0,
        },
        match stmt {
            Statement::Import(m) => mojomast::imports(seq![stmt]) == seq![m],
            _ => mojomast::imports(seq![stmt]).len() == 0,
        },
{
    let one = seq![stmt];
    assert(one.drop_last() =~= Seq::<Statement>::empty());
    assert(mojomast::modules(one.drop_last()) =~= Seq::empty());
    assert(mojomast::imports(one.drop_last()) =~= Seq::empty());
    match stmt {
        Statement::Module(m) => {
            assert(mojomast::modules(one) =~= seq![m]);
        },
        Statement::Import(m) => {
            assert(mojomast::imports(one) =~= seq![m]);
        },
        _ => {},
    }
}

/// The name of a document's module is the name in its first module statement.
pub proof fn first_module_names_the_document(ast: MojomAst, name: Option<String>, i: int)
    requires
        ast.is_module_name(name),
        0 <= i < ast.mojom.stmts@.len(),
        ast.mojom.stmts@[i] is Module,
        forall|j: int| 0 <= j < i ==> !((#[trigger] ast.mojom.stmts@[j]) is Module),
    ensures
        name matches Some(n) && n@ == ast.text_at(ast.mojom.stmts@[i]->Module_0.name),
{
    let stmts = ast.mojom.stmts@;
    let front = stmts.take(i);
    lemma_no_modules(front);
    statement_counts_as_what_it_is(stmts[i]);
    let rest = stmts.skip(i + 1);
    assert(stmts =~= front + seq![stmts[i]] + rest);
    statements_are_taken_in_their_order(front + seq![stmts[i]], rest);
    statements_are_taken_in_their_order(front, seq![stmts[i]]);
    assert(mojomast::modules(stmts)[0] == stmts[i]->Module_0);
}

proof fn lemma_no_modules(stmts: Seq<Statement>)
    requires
        forall|j: int| 0 <= j < stmts.len() ==> !((#[trigger] stmts[j]) is Module),
    ensures
        mojomast::modules(stmts).len() == 0,
    decreases stmts.len(),
{
    if stmts.len() > 0 {
        let front = stmts.drop_last();
        assert forall|j: int| 0 <= j < front.len() implies !((#[trigger] front[j]) is Module) by {
            assert(front[j] == stmts[j]);
        }
        lemma_no_modules(front);
        assert(!(stmts[stmts.len() - 1] is Module));
    }
}

/// A document without module statements has no module name.
pub proof fn document_without_modules_has_no_name(ast: MojomAst, name: Option<String>)
    requires
        ast.is_module_name(name),
        forall|j: int|
            0 <= j < ast.mojom.stmts@.len() ==> !((#[trigger] ast.mojom.stmts@[j]) is Module),
    ensures
        name is None,
{
    lemma_no_modules(ast.mojom.stmts@);
}

/// Whether `d` is an error of the check at `range`, with this message.
pub open spec fn is_check_error(
    d: lsp::DiagnosticView,
    range: lsp::Range,
    message: Seq<char>,
) -> bool {
    &&& d.range == range
    &&& d.severity == Some(DiagnosticSeverity::Error)
    &&& d.code == Some(seq!['m', 'o', 'j', 'o', 'm'])
    &&& d.source == Some(seq!['m', 'o', 'j', 'o', 'm', '-', 'l', 's', 'p'])
    &&& d.message == message
}

proof fn lemma_names()
    ensures
        "mojom"@ == seq!['m', 'o', 'j', 'o', 'm'],
        "mojom-lsp"@ == seq!['m', 'o', 'j', 'o', 'm', '-', 'l', 's', 'p'],
{
    reveal_strlit("mojom");
    reveal_strlit("mojom-lsp");
    assert("mojom"@ =~= seq!['m', 'o', 'j', 'o', 'm']);
    assert("mojom-lsp"@ =~= seq!['m', 'o', 'j', 'o', 'm', '-', 'l', 's', 'p']);
}

/// Every module statement but the first one is an error at its place that names it, in their
/// order. What is said of the imports comes behind.
pub proof fn later_modules_are_errors(ast: MojomAst, rs: Seq<ImportResolution>, i: int)
    requires
        0 < i < mojomast::modules(ast.mojom.stmts@).len(),
    ensures
        i - 1 < workspace::semantic_errors(ast, rs).len(),
        ({
            let m = mojomast::modules(ast.mojom.stmts@)[i];
            is_check_error(
                workspace::semantic_errors(ast, rs)[i - 1],
                ast.lsp_range_at(m.range),
                "Found more than one module statement: "@ + ast.text_at(m.name),
            )
        }),
{
    lemma_names();
    let ms = mojomast::later_modules(ast.mojom.stmts@);
    assert(ms[i - 1] == mojomast::modules(ast.mojom.stmts@)[i]);
    let es = ast.module_errors(ms);
    assert(workspace::semantic_errors(ast, rs)[i - 1] == es[i - 1]);
}

/// There are as many errors as there are module statements behind the first one and imports that
/// were not found.
pub proof fn errors_are_counted(ast: MojomAst, rs: Seq<ImportResolution>)
    requires
        rs.len() == mojomast::imports(ast.mojom.stmts@).len(),
    ensures
        ({
            let m = mojomast::modules(ast.mojom.stmts@).len();
            workspace::semantic_errors(ast, rs).len() == (if m == 0 {
                0
            } else {
                m - 1
            }) + lost_before(rs, rs.len() as int)
        }),
{
    lemma_import_errors(ast, mojomast::imports(ast.mojom.stmts@), rs);
}

/// How many of the first `i` of `rs` were not found.
pub open spec fn lost_before(rs: Seq<ImportResolution>, i: int) -> nat
    decreases i,
{
    if i <= 0 {
        0
    } else {
        lost_before(rs, i - 1) + (if rs[i - 1] is Found {
            0nat
        } else {
            1nat
        })
    }
}

proof fn lemma_lost_before(a: Seq<ImportResolution>, b: Seq<ImportResolution>, i: int)
    requires
        i <= a.len(),
        i <= b.len(),
        forall|k: int| 0 <= k < i ==> a[k] == b[k],
    ensures
        lost_before(a, i) == lost_before(b, i),
    decreases i,
{
    if i > 0 {
        lemma_lost_before(a, b, i - 1);
    }
}

/// What is said of an import that was not found.
pub open spec fn says_what_is_wrong(
    ast: MojomAst,
    d: lsp::DiagnosticView,
    import: Import,
    r: ImportResolution,
) -> bool {
    match r {
        ImportResolution::NotFound(err) => is_check_error(
            d,
            ast.lsp_range_at(import.range),
            "Failed to find import path: "@ + ast.path_at(import) + ": "@ + err@,
        ),
        ImportResolution::Missing(path) => is_check_error(
            d,
            ast.lsp_range_at(import.range),
            "Import path does not exist: "@ + path@,
        ),
        ImportResolution::Found(_) => false,
    }
}

proof fn lemma_import_errors(ast: MojomAst, is: Seq<Import>, rs: Seq<ImportResolution>)
    requires
        is.len() == rs.len(),
    ensures
        ast.import_errors(is, rs).len() == lost_before(rs, rs.len() as int),
        forall|i: int|
            0 <= i < rs.len() && !((#[trigger] rs[i]) is Found) ==> {
                &&& lost_before(rs, i) < ast.import_errors(is, rs).len()
                &&& says_what_is_wrong(
                    ast,
                    ast.import_errors(is, rs)[lost_before(rs, i) as int],
                    is[i],
                    rs[i],
                )
            },
    decreases is.len(),
{
    lemma_names();
    if is.len() > 0 {
        let front = rs.drop_last();
        let n = front.len() as int;
        lemma_import_errors(ast, is.drop_last(), front);
        lemma_lost_before(rs, front, n);
        let all = ast.import_errors(is, rs);
        assert forall|i: int| 0 <= i < rs.len() && !((#[trigger] rs[i]) is Found) implies {
            &&& lost_before(rs, i) < all.len()
            &&& says_what_is_wrong(ast, all[lost_before(rs, i) as int], is[i], rs[i])
        } by {
            if i < n {
                assert(front[i] == rs[i]);
                lemma_lost_before(rs, front, i);
            }
        }
    }
}

/// Every import that was not found is one error at its place that names it, in their order and
/// behind what is said of the module statements, whatever became of the other imports.
pub proof fn lost_imports_are_errors(ast: MojomAst, rs: Seq<ImportResolution>, i: int)
    requires
        rs.len() == mojomast::imports(ast.mojom.stmts@).len(),
        0 <= i < rs.len(),
        !(rs[i] is Found),
    ensures
        ({
            let m = mojomast::modules(ast.mojom.stmts@).len();
            let k = (if m == 0 {
                0
            } else {
                m - 1
            }) + lost_before(rs, i);
            &&& k < workspace::semantic_errors(ast, rs).len()
            &&& says_what_is_wrong(
                ast,
                workspace::semantic_errors(ast, rs)[k],
                mojomast::imports(ast.mojom.stmts@)[i],
                rs[i],
            )
        }),
{
    let is = mojomast::imports(ast.mojom.stmts@);
    lemma_import_errors(ast, is, rs);
    let a = ast.module_errors(mojomast::later_modules(ast.mojom.stmts@));
    let b = ast.import_errors(is, rs);
    let m = mojomast::modules(ast.mojom.stmts@).len();
    assert(a.len() == (if m == 0 {
        0
    } else {
        m - 1
    }));
    let n = lost_before(rs, i);
    assert(workspace::semantic_errors(ast, rs)[(a.len() + n) as int] == b[n as int]);
}

/// The path of an import is what stands between its quotes.
pub proof fn path_stands_between_quotes(
    ast: MojomAst,
    a: Seq<char>,
    path: Seq<char>,
    b: Seq<char>,
    import: Import,
)
    requires
        ast.text@ == a + seq!['"'] + path + seq!['"'] + b,
        import.path.start == text::utf8(a).len(),
        import.path.end == text::utf8(a).len() + text::utf8(path).len() + 2,
    ensures
        ast.path_at(import) == path,
{
    let front = a + seq!['"'];
    let back = seq!['"'] + b;
    assert(ast.text@ =~= front + path + back);
    joined::lemma_utf8_append(a, seq!['"']);
    assert(vstd::utf8::is_ascii_chars(seq!['"']));
    vstd::utf8::is_ascii_chars_encode_utf8(seq!['"']);
    places::part_is_what_stands_there(front, path, back);
}

} // verus!
