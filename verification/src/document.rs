//! A parsed document that knows its URI and its module.
use vstd::prelude::*;

use crate::fits;
use crate::mojomast;
use crate::parser::ParseError;
use crate::syntax;
use crate::syntax::{line_col, LineCol, Module, MojomFile, Range, Statement};
use crate::text;

verus! {

/// The text at a URI, its syntax tree and its first module statement.
#[derive(Debug)]
pub struct MojomAst {
    pub uri: String,
    pub ast: mojomast::MojomAst,
    pub module: Option<Module>,
}

/// The first module statement among `stmts`.
pub open spec fn first_module(stmts: Seq<Statement>) -> Option<Module> {
    if mojomast::modules(stmts).len() > 0 {
        Some(mojomast::modules(stmts)[0])
    } else {
        None
    }
}

/// Finds the first module statement. That there is only one is for the semantic check to see.
pub fn find_module_stmt(mojom: &MojomFile) -> (r: Option<Module>)
    ensures
        r == first_module(mojom.stmts@),
{
    let mut i: usize = 0;
    while i < mojom.stmts.len()
        invariant
            i <= mojom.stmts@.len(),
            mojomast::modules(mojom.stmts@.take(i as int)).len() == 0,
        decreases mojom.stmts@.len() - i,
    {
        proof {
            assert(mojom.stmts@.take(i + 1).drop_last() =~= mojom.stmts@.take(i as int));
        }
        if let Statement::Module(module) = &mojom.stmts[i] {
            proof {
                mojomast::lemma_first_module(mojom.stmts@, i + 1);
            }
            return Some(*module);
        }
        i = i + 1;
    }
    proof {
        assert(mojom.stmts@.take(i as int) =~= mojom.stmts@);
    }
    None
}

impl MojomAst {
    /// Whether the ranges of the tree lie in the text and the module is its first one.
    pub open spec fn wf(self) -> bool {
        self.ast.wf() && self.module == first_module(self.ast.mojom.stmts@)
    }

    /// Parses `text`.
    pub fn new(uri: String, text: String) -> (r: Result<MojomAst, ParseError>)
        ensures
            match r {
                Ok(ast) => {
                    &&& ast.uri@ == uri@
                    &&& ast.ast.text@ == text@
                    &&& syntax::is_tree_of(ast.ast.mojom, text@)
                    &&& ast.wf()
                },
                Err(err) => syntax::is_parse_error(err, text@),
            },
    {
        let mojom = match syntax::parse(text.as_str()) {
            Ok(mojom) => mojom,
            Err(err) => {
                return Err(err.err);
            },
        };
        Ok(MojomAst::from_mojom(uri, text, mojom))
    }

    /// Puts a text and its syntax tree together.
    pub fn from_mojom(uri: String, text: String, mojom: MojomFile) -> (r: MojomAst)
        ensures
            r.uri@ == uri@,
            r.ast.text@ == text@,
            r.ast.mojom == mojom,
            r.module == first_module(mojom.stmts@),
    {
        let module = find_module_stmt(&mojom);
        MojomAst { uri, ast: mojomast::MojomAst::from_mojom(text, mojom), module }
    }

    /// The text at `field`.
    pub fn text(&self, field: &Range) -> (r: &str)
        requires
            fits::range_fits(*field, text::utf8(self.ast.text@)),
        ensures
            r@ == self.ast.text_at(*field),
    {
        self.ast.text(field)
    }

    /// The line and the column of the byte `offset`.
    pub fn line_col(&self, offset: usize) -> (r: LineCol)
        requires
            text::boundary(text::utf8(self.ast.text@), offset as int),
        ensures
            r.is_at(self.ast.text@, offset as int),
    {
        line_col(self.ast.text.as_str(), offset).unwrap()
    }

    /// The name in the first module statement.
    pub fn module_name(&self) -> (r: Option<&str>)
        requires
            self.wf(),
        ensures
            match r {
                Some(name) => self.module matches Some(m) && name@ == self.ast.text_at(m.name),
                None => self.module is None,
            },
    {
        match &self.module {
            Some(module) => {
                proof {
                    lemma_module_fits(self.ast.mojom, text::utf8(self.ast.text@));
                }
                Some(self.text(&module.name))
            },
            None => None,
        }
    }
}

/// The name in the first module statement lies in the text.
proof fn lemma_module_fits(mojom: MojomFile, s: Seq<u8>)
    requires
        fits::file_fits(mojom, s),
    ensures
        first_module(mojom.stmts@) matches Some(m) ==> fits::module_fits(m, s),
{
    lemma_modules_fit(mojom.stmts@, s);
}

proof fn lemma_modules_fit(stmts: Seq<Statement>, s: Seq<u8>)
    requires
        forall|i: int| 0 <= i < stmts.len() ==> fits::statement_fits(#[trigger] stmts[i], s),
    ensures
        forall|i: int|
            0 <= i < mojomast::modules(stmts).len() ==> fits::module_fits(
                #[trigger] mojomast::modules(stmts)[i],
                s,
            ),
    decreases stmts.len(),
{
    if stmts.len() > 0 {
        let before = stmts.drop_last();
        assert forall|i: int| 0 <= i < before.len() implies fits::statement_fits(
            #[trigger] before[i],
            s,
        ) by {
            assert(before[i] == stmts[i]);
        }
        lemma_modules_fit(before, s);
        assert(fits::statement_fits(stmts.last(), s));
        let ms = mojomast::modules(before);
        assert forall|i: int| 0 <= i < mojomast::modules(stmts).len() implies fits::module_fits(
            #[trigger] mojomast::modules(stmts)[i],
            s,
        ) by {
            if i < ms.len() {
                assert(fits::module_fits(ms[i], s));
            }
        }
    }
}

} // verus!
