//! Finding what an identifier stands for in a document.
use vstd::prelude::*;

use crate::fits;
use crate::lsp;
use crate::mojomast;
use crate::mojomast::MojomAst;
use crate::syntax::{Interface, InterfaceMember, Range, Statement, Struct, StructBody};
use crate::text;
use crate::traversal;
use crate::traversal::{preorder, Traversal};

verus! {

/// A name that a document defines, with the names around it, and where it stands.
#[verifier::ext_equal]
pub struct Definition {
    pub name: Seq<char>,
    pub at: Range,
}

/// The names in `path`, with dots between them.
pub open spec fn dotted(path: Seq<Seq<char>>) -> Seq<char>
    decreases path.len(),
{
    if path.len() == 0 {
        Seq::empty()
    } else if path.len() == 1 {
        path[0]
    } else {
        dotted(path.drop_last()) + "."@ + path.last()
    }
}

/// Where the first of `ds` with this name stands.
pub open spec fn first_named(ds: Seq<Definition>, name: Seq<char>) -> Option<Range>
    decreases ds.len(),
{
    if ds.len() == 0 {
        None
    } else {
        match first_named(ds.drop_last(), name) {
            Some(at) => Some(at),
            None => if ds.last().name == name {
                Some(ds.last().at)
            } else {
                None
            },
        }
    }
}

/// The strings in `path`.
pub open spec fn path_views<'a>(path: Seq<&'a str>) -> Seq<Seq<char>> {
    Seq::new(path.len(), |i: int| path[i]@)
}

impl MojomAst {
    /// What a member of an interface defines. Methods are not looked up.
    pub open spec fn interface_member_definition(
        self,
        x: Interface,
        m: InterfaceMember,
    ) -> Seq<Definition> {
        let outer = self.text_at(x.name);
        match m {
            InterfaceMember::Const(y) => seq![
                Definition { name: outer + "."@ + self.text_at(y.name), at: y.name },
            ],
            InterfaceMember::Enum(y) => seq![
                Definition { name: outer + "."@ + self.text_at(y.name), at: y.name },
            ],
            InterfaceMember::Method(_) => Seq::empty(),
        }
    }

    /// What members of an interface define.
    pub open spec fn interface_member_definitions(
        self,
        x: Interface,
        ms: Seq<InterfaceMember>,
    ) -> Seq<Definition>
        decreases ms.len(),
    {
        if ms.len() == 0 {
            Seq::empty()
        } else {
            self.interface_member_definitions(x, ms.drop_last()) + self.interface_member_definition(
                x,
                ms.last(),
            )
        }
    }

    /// What a member of a struct defines. Fields are not looked up.
    pub open spec fn struct_member_definition(self, x: Struct, m: StructBody) -> Seq<Definition> {
        let outer = self.text_at(x.name);
        match m {
            StructBody::Const(y) => seq![
                Definition { name: outer + "."@ + self.text_at(y.name), at: y.name },
            ],
            StructBody::Enum(y) => seq![
                Definition { name: outer + "."@ + self.text_at(y.name), at: y.name },
            ],
            StructBody::Field(_) => Seq::empty(),
        }
    }

    /// What members of a struct define.
    pub open spec fn struct_member_definitions(
        self,
        x: Struct,
        ms: Seq<StructBody>,
    ) -> Seq<Definition>
        decreases ms.len(),
    {
        if ms.len() == 0 {
            Seq::empty()
        } else {
            self.struct_member_definitions(x, ms.drop_last()) + self.struct_member_definition(
                x,
                ms.last(),
            )
        }
    }

    /// What a statement defines: a name of its own, then those of its members, which the
    /// name stands before.
    pub open spec fn statement_definitions(self, stmt: Statement) -> Seq<Definition> {
        match stmt {
            Statement::Module(_) => Seq::empty(),
            Statement::Import(_) => Seq::empty(),
            Statement::Interface(x) => seq![
                Definition { name: self.text_at(x.name), at: x.name },
            ] + self.interface_member_definitions(x, x.members@),
            Statement::Struct(x) => seq![Definition { name: self.text_at(x.name), at: x.name }]
                + self.struct_member_definitions(x, x.members@),
            Statement::Union(x) => seq![Definition { name: self.text_at(x.name), at: x.name }],
            Statement::Enum(x) => seq![Definition { name: self.text_at(x.name), at: x.name }],
            Statement::Const(x) => seq![Definition { name: self.text_at(x.name), at: x.name }],
        }
    }

    /// What `stmts` define, one statement after the other.
    pub open spec fn definitions_of(self, stmts: Seq<Statement>) -> Seq<Definition>
        decreases stmts.len(),
    {
        if stmts.len() == 0 {
            Seq::empty()
        } else {
            self.definitions_of(stmts.drop_last()) + self.statement_definitions(stmts.last())
        }
    }

    /// Where the document defines `ident`.
    pub open spec fn definition(self, ident: Seq<char>) -> Option<lsp::Range> {
        match first_named(self.definitions_of(self.mojom.stmts@), ident) {
            Some(at) => Some(self.lsp_range_at(at)),
            None => None,
        }
    }

    /// What a step of a walk inside `path` defines.
    spec fn step_definition(self, t: Traversal, path: Seq<Seq<char>>) -> Seq<Definition> {
        match t {
            Traversal::EnterInterface(x) => self.named(x.name, path),
            Traversal::EnterStruct(x) => self.named(x.name, path),
            Traversal::Union(x) => self.named(x.name, path),
            Traversal::Enum(x) => self.named(x.name, path),
            Traversal::Const(x) => self.named(x.name, path),
            _ => Seq::empty(),
        }
    }

    /// The definition of the name at `at` inside `path`.
    spec fn named(self, at: Range, path: Seq<Seq<char>>) -> Seq<Definition> {
        seq![Definition { name: dotted(path.push(self.text_at(at))), at }]
    }

    /// What a walk is inside of after the steps `ts`.
    spec fn path_after(self, ts: Seq<Traversal>) -> Seq<Seq<char>>
        decreases ts.len(),
    {
        if ts.len() == 0 {
            Seq::empty()
        } else {
            let path = self.path_after(ts.drop_last());
            match ts.last() {
                Traversal::EnterInterface(x) => path.push(self.text_at(x.name)),
                Traversal::EnterStruct(x) => path.push(self.text_at(x.name)),
                Traversal::LeaveInterface(_) => if path.len() > 0 {
                    path.drop_last()
                } else {
                    path
                },
                Traversal::LeaveStruct(_) => if path.len() > 0 {
                    path.drop_last()
                } else {
                    path
                },
                _ => path,
            }
        }
    }

    /// What the steps `ts` of a walk define.
    spec fn step_definitions(self, ts: Seq<Traversal>) -> Seq<Definition>
        decreases ts.len(),
    {
        if ts.len() == 0 {
            Seq::empty()
        } else {
            self.step_definitions(ts.drop_last()) + self.step_definition(
                ts.last(),
                self.path_after(ts.drop_last()),
            )
        }
    }

    /// One more step of a walk.
    proof fn lemma_definition_step(self, a: Seq<Traversal>, t: Traversal)
        ensures
            self.step_definitions(a.push(t)) == self.step_definitions(a) + self.step_definition(
                t,
                self.path_after(a),
            ),
    {
        assert(a.push(t).drop_last() =~= a);
    }

    /// The steps at the first members of an interface.
    proof fn lemma_interface_definitions(self, a: Seq<Traversal>, x: Interface, n: int)
        requires
            0 <= n <= x.members@.len(),
            self.path_after(a).len() == 0,
        ensures
            ({
                let enter = seq![Traversal::EnterInterface(&x)];
                let ts = a + enter + traversal::interface_member_steps(x.members@).take(n);
                &&& self.path_after(ts) == seq![self.text_at(x.name)]
                &&& self.step_definitions(ts) == self.step_definitions(a) + (seq![
                    Definition { name: self.text_at(x.name), at: x.name },
                ] + self.interface_member_definitions(x, x.members@.take(n)))
            }),
        decreases n,
    {
        reveal_with_fuel(dotted, 3);
        let enter = seq![Traversal::EnterInterface(&x)];
        let steps = traversal::interface_member_steps(x.members@);
        let own = Definition { name: self.text_at(x.name), at: x.name };
        let outer = seq![self.text_at(x.name)];
        if n == 0 {
            let ts = a + enter + steps.take(0);
            let t = Traversal::EnterInterface(&x);
            assert(ts =~= a.push(t));
            assert(a.push(t).drop_last() =~= a);
            assert(self.path_after(a).push(self.text_at(x.name)) =~= outer);
            self.lemma_definition_step(a, t);
            assert(seq![own] + self.interface_member_definitions(x, x.members@.take(0)) =~= seq![
                own,
            ]);
        } else {
            self.lemma_interface_definitions(a, x, n - 1);
            let before = a + enter + steps.take(n - 1);
            let t = steps[n - 1];
            assert(a + enter + steps.take(n) =~= before.push(t));
            assert(before.push(t).drop_last() =~= before);
            self.lemma_definition_step(before, t);
            assert(x.members@.take(n).drop_last() =~= x.members@.take(n - 1));
            assert forall|inner: Seq<char>| #[trigger] dotted(outer.push(inner)) == outer[0] + "."@
                + inner by {
                assert(outer.push(inner).drop_last() =~= outer);
            }
            let fewer = self.interface_member_definitions(x, x.members@.take(n - 1));
            let member = self.interface_member_definition(x, x.members@[n - 1]);
            assert(self.step_definition(t, outer) =~= member);
            assert(self.step_definitions(a) + (seq![own] + (fewer + member))
                =~= self.step_definitions(a) + (seq![own] + fewer) + member);
        }
    }

    /// The steps at the first members of a struct.
    proof fn lemma_struct_definitions(self, a: Seq<Traversal>, x: Struct, n: int)
        requires
            0 <= n <= x.members@.len(),
            self.path_after(a).len() == 0,
        ensures
            ({
                let enter = seq![Traversal::EnterStruct(&x)];
                let ts = a + enter + traversal::struct_member_steps(x.members@).take(n);
                &&& self.path_after(ts) == seq![self.text_at(x.name)]
                &&& self.step_definitions(ts) == self.step_definitions(a) + (seq![
                    Definition { name: self.text_at(x.name), at: x.name },
                ] + self.struct_member_definitions(x, x.members@.take(n)))
            }),
        decreases n,
    {
        reveal_with_fuel(dotted, 3);
        let enter = seq![Traversal::EnterStruct(&x)];
        let steps = traversal::struct_member_steps(x.members@);
        let own = Definition { name: self.text_at(x.name), at: x.name };
        let outer = seq![self.text_at(x.name)];
        if n == 0 {
            let ts = a + enter + steps.take(0);
            let t = Traversal::EnterStruct(&x);
            assert(ts =~= a.push(t));
            assert(a.push(t).drop_last() =~= a);
            assert(self.path_after(a).push(self.text_at(x.name)) =~= outer);
            self.lemma_definition_step(a, t);
            assert(seq![own] + self.struct_member_definitions(x, x.members@.take(0)) =~= seq![own]);
        } else {
            self.lemma_struct_definitions(a, x, n - 1);
            let before = a + enter + steps.take(n - 1);
            let t = steps[n - 1];
            assert(a + enter + steps.take(n) =~= before.push(t));
            assert(before.push(t).drop_last() =~= before);
            self.lemma_definition_step(before, t);
            assert(x.members@.take(n).drop_last() =~= x.members@.take(n - 1));
            assert forall|inner: Seq<char>| #[trigger] dotted(outer.push(inner)) == outer[0] + "."@
                + inner by {
                assert(outer.push(inner).drop_last() =~= outer);
            }
            let fewer = self.struct_member_definitions(x, x.members@.take(n - 1));
            let member = self.struct_member_definition(x, x.members@[n - 1]);
            assert(self.step_definition(t, outer) =~= member);
            assert(self.step_definitions(a) + (seq![own] + (fewer + member))
                =~= self.step_definitions(a) + (seq![own] + fewer) + member);
        }
    }

    /// The steps at a statement.
    proof fn lemma_statement_definitions(self, a: Seq<Traversal>, stmt: Statement)
        requires
            self.path_after(a).len() == 0,
        ensures
            self.path_after(a + traversal::statement_steps(&stmt)).len() == 0,
            self.step_definitions(a + traversal::statement_steps(&stmt)) == self.step_definitions(a)
                + self.statement_definitions(stmt),
    {
        let b = traversal::statement_steps(&stmt);
        match stmt {
            Statement::Interface(x) => {
                let n = x.members@.len() as int;
                let steps = traversal::interface_member_steps(x.members@);
                self.lemma_interface_definitions(a, x, n);
                assert(steps.take(n) =~= steps);
                assert(x.members@.take(n) =~= x.members@);
                let before = a + seq![Traversal::EnterInterface(&x)] + steps;
                let t = Traversal::LeaveInterface(&x);
                assert(a + b =~= before.push(t));
                assert(before.push(t).drop_last() =~= before);
                self.lemma_definition_step(before, t);
                assert(self.step_definitions(before) + Seq::<Definition>::empty()
                    =~= self.step_definitions(before));
            },
            Statement::Struct(x) => {
                let n = x.members@.len() as int;
                let steps = traversal::struct_member_steps(x.members@);
                self.lemma_struct_definitions(a, x, n);
                assert(steps.take(n) =~= steps);
                assert(x.members@.take(n) =~= x.members@);
                let before = a + seq![Traversal::EnterStruct(&x)] + steps;
                let t = Traversal::LeaveStruct(&x);
                assert(a + b =~= before.push(t));
                assert(before.push(t).drop_last() =~= before);
                self.lemma_definition_step(before, t);
                assert(self.step_definitions(before) + Seq::<Definition>::empty()
                    =~= self.step_definitions(before));
            },
            _ => {
                assert(a + b =~= a.push(b[0]));
                assert(a.push(b[0]).drop_last() =~= a);
                self.lemma_definition_step(a, b[0]);
                assert(self.step_definition(b[0], self.path_after(a))
                    =~= self.statement_definitions(stmt));
            },
        }
    }

    /// A walk through the document meets its definitions.
    proof fn lemma_definition_walk(self, stmts: Seq<Statement>)
        ensures
            self.path_after(traversal::steps(stmts)).len() == 0,
            self.step_definitions(traversal::steps(stmts)) == self.definitions_of(stmts),
        decreases stmts.len(),
    {
        if stmts.len() > 0 {
            self.lemma_definition_walk(stmts.drop_last());
            self.lemma_statement_definitions(traversal::steps(stmts.drop_last()), stmts.last());
        }
    }

    /// What the first steps have found is what all steps find.
    proof fn lemma_first_found(self, ts: Seq<Traversal>, k: int, name: Seq<char>)
        requires
            0 <= k <= ts.len(),
            first_named(self.step_definitions(ts.take(k)), name) is Some,
        ensures
            first_named(self.step_definitions(ts), name) == first_named(
                self.step_definitions(ts.take(k)),
                name,
            ),
        decreases ts.len() - k,
    {
        if k == ts.len() {
            assert(ts.take(k) =~= ts);
        } else {
            let before = ts.take(k);
            assert(ts.take(k + 1) =~= before.push(ts[k]));
            self.lemma_definition_step(before, ts[k]);
            let d = self.step_definition(ts[k], self.path_after(before));
            lemma_first_named(self.step_definitions(before), d, name);
            self.lemma_first_found(ts, k + 1, name);
        }
    }
}

/// The first of two lists counts where it has the name.
pub(crate) proof fn lemma_first_named(a: Seq<Definition>, b: Seq<Definition>, name: Seq<char>)
    ensures
        first_named(a + b, name) == (match first_named(a, name) {
            Some(at) => Some(at),
            None => first_named(b, name),
        }),
    decreases b.len(),
{
    if b.len() == 0 {
        assert(a + b =~= a);
    } else {
        assert((a + b).drop_last() =~= a + b.drop_last());
        lemma_first_named(a, b.drop_last(), name);
    }
}

/// At most one definition.
pub(crate) proof fn lemma_one_named(d: Seq<Definition>, name: Seq<char>)
    requires
        d.len() <= 1,
    ensures
        first_named(d, name) == (if d.len() == 1 && d[0].name == name {
            Some(d[0].at)
        } else {
            None
        }),
{
    reveal_with_fuel(first_named, 2);
}

/// Puts dots between the names in `path`.
fn join_path<'a>(path: &Vec<&'a str>) -> (r: String)
    ensures
        r@ == dotted(path_views(path@)),
{
    let mut out = String::new();
    let mut i: usize = 0;
    while i < path.len()
        invariant
            i <= path@.len(),
            out@ =~= dotted(path_views(path@.take(i as int))),
        decreases path@.len() - i,
    {
        proof {
            let views = path_views(path@.take(i + 1));
            assert(views.drop_last() =~= path_views(path@.take(i as int)));
        }
        if i > 0 {
            out.append(".");
        }
        out.append(path[i]);
        i = i + 1;
    }
    proof {
        assert(path@.take(i as int) =~= path@);
    }
    out
}

impl MojomAst {
    /// Compares `target` with the name at `field` inside `path`, and gives the place of the
    /// name where they are the same.
    fn match_field<'a>(
        &'a self,
        target: &str,
        field: &Range,
        path: &mut Vec<&'a str>,
    ) -> (r: Option<lsp::Range>)
        requires
            fits::range_fits(*field, text::utf8(self.text@)),
        ensures
            r == (if dotted(path_views(old(path)@).push(self.text_at(*field))) == target@ {
                Some(self.lsp_range_at(*field))
            } else {
                None
            }),
            final(path)@ == old(path)@,
    {
        let name = self.text(field);
        path.push(name);
        let ident = join_path(path);
        proof {
            assert(path_views(path@) =~= path_views(old(path)@).push(self.text_at(*field)));
        }
        path.pop();
        proof {
            assert(path@ =~= old(path)@);
        }
        if text::str_eq(ident.as_str(), target) {
            Some(self.lsp_range(field))
        } else {
            None
        }
    }

    /// Finds where the document defines `ident`.
    pub fn find_definition(&self, ident: &str) -> (r: Option<lsp::Range>)
        requires
            self.wf(),
        ensures
            r == self.definition(ident@),
    {
        let steps = preorder(&self.mojom);
        proof {
            mojomast::lemma_steps_fit(self.mojom.stmts@, text::utf8(self.text@));
            self.lemma_definition_walk(self.mojom.stmts@);
        }
        let mut path: Vec<&str> = Vec::new();
        let mut i: usize = 0;
        proof {
            assert(path_views(path@) =~= Seq::empty());
        }
        while i < steps.len()
            invariant
                i <= steps@.len(),
                self.step_definitions(steps@) == self.definitions_of(self.mojom.stmts@),
                forall|k: int|
                    0 <= k < steps@.len() ==> mojomast::step_fits(
                        #[trigger] steps@[k],
                        text::utf8(self.text@),
                    ),
                path_views(path@) =~= self.path_after(steps@.take(i as int)),
                first_named(self.step_definitions(steps@.take(i as int)), ident@) is None,
            decreases steps@.len() - i,
        {
            let ghost before = steps@.take(i as int);
            let ghost outer = path_views(path@);
            let ghost t = steps@[i as int];
            let ghost d = self.step_definition(t, outer);
            proof {
                assert(steps@.take(i + 1) =~= before.push(t));
                assert(before.push(t).drop_last() =~= before);
                self.lemma_definition_step(before, t);
                lemma_first_named(self.step_definitions(before), d, ident@);
                assert(mojomast::step_fits(t, text::utf8(self.text@)));
                lemma_one_named(d, ident@);
            }
            let range = match &steps[i] {
                Traversal::EnterInterface(node) => {
                    let range = self.match_field(ident, &node.name, &mut path);
                    path.push(self.text(&node.name));
                    range
                },
                Traversal::LeaveInterface(_) => {
                    path.pop();
                    None
                },
                Traversal::EnterStruct(node) => {
                    let range = self.match_field(ident, &node.name, &mut path);
                    path.push(self.text(&node.name));
                    range
                },
                Traversal::LeaveStruct(_) => {
                    path.pop();
                    None
                },
                Traversal::Union(node) => self.match_field(ident, &node.name, &mut path),
                Traversal::Enum(node) => self.match_field(ident, &node.name, &mut path),
                Traversal::Const(node) => self.match_field(ident, &node.name, &mut path),
                _ => None,
            };
            if range.is_some() {
                proof {
                    self.lemma_first_found(steps@, i + 1, ident@);
                }
                return range;
            }
            i = i + 1;
        }
        proof {
            assert(steps@.take(i as int) =~= steps@);
        }
        None
    }
}

} // verus!
