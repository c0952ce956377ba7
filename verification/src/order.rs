//! The parts of a document stand one behind the other, so that a name leads to what it names.
use vstd::prelude::*;

use crate::document_symbol::Class;
use crate::fits;
use crate::grammar::Rule;
use crate::laws;
use crate::mojomast;
use crate::mojomast::MojomAst;
use crate::parser;
use crate::peg::Node;
use crate::syntax;
use crate::syntax::{
    Const, Enum, Interface, InterfaceMember, Method, MojomFile, Parameter, Range, Statement, Struct,
    StructBody, Union,
};
use crate::text;
use crate::tree;

verus! {

/// Where a statement stands.
pub open spec fn statement_range(m: Statement) -> Range {
    match m {
        Statement::Module(x) => x.range,
        Statement::Import(x) => x.range,
        Statement::Interface(x) => x.range,
        Statement::Struct(x) => x.range,
        Statement::Union(x) => x.range,
        Statement::Enum(x) => x.range,
        Statement::Const(x) => x.range,
    }
}

/// Where a member of an interface stands.
pub open spec fn member_range(m: InterfaceMember) -> Range {
    match m {
        InterfaceMember::Const(x) => x.range,
        InterfaceMember::Enum(x) => x.range,
        InterfaceMember::Method(x) => x.range,
    }
}

/// Whether `stmts` stand one behind the other.
pub open spec fn statements_in_order(stmts: Seq<Statement>) -> bool {
    forall|i: int, j: int|
        0 <= i < j < stmts.len() ==> statement_range(#[trigger] stmts[i]).end <= statement_range(
            #[trigger] stmts[j],
        ).start
}

/// Where a member of a struct stands.
pub open spec fn struct_member_range(m: StructBody) -> Range {
    match m {
        StructBody::Const(x) => x.range,
        StructBody::Enum(x) => x.range,
        StructBody::Field(x) => x.range,
    }
}

/// Whether a name is not empty.
pub open spec fn named(name: Range) -> bool {
    name.start < name.end
}

/// Whether the name of an enum and its values stand one behind the other, and none of their
/// names is empty.
pub open spec fn enum_in_order(x: Enum) -> bool {
    &&& named(x.name)
    &&& forall|i: int|
        0 <= i < x.values@.len() ==> x.name.end <= (#[trigger] x.values@[i]).range.start && named(
            x.values@[i].name,
        )
    &&& forall|i: int, j: int|
        0 <= i < j < x.values@.len() ==> (#[trigger] x.values@[i]).range.end <= (
        #[trigger] x.values@[j]).range.start
}

/// Whether parameters stand one behind the other, and none of their names is empty.
pub open spec fn parameters_in_order(ps: Seq<Parameter>) -> bool {
    &&& forall|i: int| 0 <= i < ps.len() ==> named((#[trigger] ps[i]).name)
    &&& forall|i: int, j: int|
        0 <= i < j < ps.len() ==> (#[trigger] ps[i]).range.end <= (#[trigger] ps[j]).range.start
}

/// Whether the parameters of a method, and those of its response, stand one behind the other
/// and behind its name, and none of their names is empty.
pub open spec fn method_in_order(x: Method) -> bool {
    &&& named(x.name)
    &&& parameters_in_order(x.params@)
    &&& forall|i: int|
        0 <= i < x.params@.len() ==> x.name.end <= (#[trigger] x.params@[i]).range.start
    &&& x.response matches Some(response) ==> {
        &&& parameters_in_order(response.params@)
        &&& x.name.end <= response.range.start
        &&& forall|i: int|
            0 <= i < x.params@.len() ==> (#[trigger] x.params@[i]).range.end
                <= response.range.start
    }
}

/// What holds inside a member of an interface.
pub open spec fn member_in_order(m: InterfaceMember) -> bool {
    match m {
        InterfaceMember::Const(x) => named(x.name),
        InterfaceMember::Enum(x) => enum_in_order(x),
        InterfaceMember::Method(x) => method_in_order(x),
    }
}

/// Whether the name of an interface and its members stand one behind the other, and so does
/// what the members hold. No name is empty.
pub open spec fn interface_in_order(x: Interface) -> bool {
    &&& named(x.name)
    &&& forall|i: int|
        0 <= i < x.members@.len() ==> member_in_order(#[trigger] x.members@[i]) && x.name.end
            <= member_range(x.members@[i]).start
    &&& forall|i: int, j: int|
        0 <= i < j < x.members@.len() ==> member_range(#[trigger] x.members@[i]).end
            <= member_range(#[trigger] x.members@[j]).start
}

/// What holds inside a member of a struct.
pub open spec fn struct_member_in_order(m: StructBody) -> bool {
    match m {
        StructBody::Const(x) => named(x.name),
        StructBody::Enum(x) => enum_in_order(x),
        StructBody::Field(x) => named(x.name),
    }
}

/// Whether the name of a struct and its members stand one behind the other, and so does what
/// the members hold. No name is empty.
pub open spec fn struct_in_order(x: Struct) -> bool {
    &&& named(x.name)
    &&& forall|i: int|
        0 <= i < x.members@.len() ==> struct_member_in_order(#[trigger] x.members@[i])
            && x.name.end <= struct_member_range(x.members@[i]).start
    &&& forall|i: int, j: int|
        0 <= i < j < x.members@.len() ==> struct_member_range(#[trigger] x.members@[i]).end
            <= struct_member_range(#[trigger] x.members@[j]).start
}

/// Whether the name of a union and its fields stand one behind the other, and none of their
/// names is empty.
pub open spec fn union_in_order(x: Union) -> bool {
    &&& named(x.name)
    &&& forall|i: int|
        0 <= i < x.fields@.len() ==> x.name.end <= (#[trigger] x.fields@[i]).range.start && named(
            x.fields@[i].name,
        )
    &&& forall|i: int, j: int|
        0 <= i < j < x.fields@.len() ==> (#[trigger] x.fields@[i]).range.end <= (
        #[trigger] x.fields@[j]).range.start
}

/// What holds inside a statement.
pub open spec fn statement_in_order(m: Statement) -> bool {
    match m {
        Statement::Module(x) => named(x.name),
        Statement::Import(x) => named(x.path),
        Statement::Interface(x) => interface_in_order(x),
        Statement::Struct(x) => struct_in_order(x),
        Statement::Union(x) => union_in_order(x),
        Statement::Enum(x) => enum_in_order(x),
        Statement::Const(x) => named(x.name),
    }
}

/// Picked nodes keep their order.
proof fn lemma_picked_two(ns: Seq<Node>, r: Rule, a: int, b: int) -> (j: (int, int))
    requires
        0 <= a < b < syntax::picked(ns, r).len(),
    ensures
        0 <= j.0 < j.1 < ns.len(),
        ns[j.0] == syntax::picked(ns, r)[a],
        ns[j.1] == syntax::picked(ns, r)[b],
        ns[j.0].rule == r,
        ns[j.1].rule == r,
    decreases ns.len(),
{
    let rest = ns.skip(1);
    if ns[0].rule == r {
        if a == 0 {
            let k = fits::lemma_picked_from(rest, r, b - 1);
            (0int, k + 1)
        } else {
            let k = lemma_picked_two(rest, r, a - 1, b - 1);
            (k.0 + 1, k.1 + 1)
        }
    } else {
        let k = lemma_picked_two(rest, r, a, b);
        (k.0 + 1, k.1 + 1)
    }
}

/// A statement stands inside the node around it.
proof fn lemma_statement_inside(m: Statement, n: Node, s: Seq<u8>)
    requires
        n.rule == Rule::statement,
        tree::well_formed(n),
        tree::placed(s, n),
        syntax::is_statement(m, n),
    ensures
        n.start <= statement_range(m).start,
        statement_range(m).end <= n.end,
{
    syntax::lemma_statement(n);
    assert(tree::placed(s, n.inner[0]));
}

/// A child is not empty.
proof fn lemma_named(name: Range, n: Node, i: int, s: Seq<u8>)
    requires
        tree::placed(s, n),
        0 <= i < n.inner.len(),
        name.is_of(n.inner[i]),
        n.inner[i].rule == Rule::name || n.inner[i].rule == Rule::identifier || n.inner[i].rule
            == Rule::string_literal,
    ensures
        named(name),
{
    assert(tree::placed(s, n.inner[i]));
}

proof fn lemma_enum_in_order(x: Enum, n: Node, s: Seq<u8>)
    requires
        n.rule == Rule::enum_stmt,
        tree::well_formed(n),
        tree::placed(s, n),
        syntax::is_enum(x, n),
    ensures
        enum_in_order(x),
{
    syntax::lemma_enum(n);
    let k = tree::attrs(n.inner);
    lemma_named(x.name, n, k, s);
    let ps = syntax::enum_value_nodes(n);
    if x.values@.len() > 0 {
        let block = n.inner[k + 1];
        assert(tree::placed(s, block) && tree::well_formed(block));
        assert forall|i: int| 0 <= i < x.values@.len() implies x.name.end <= (
        #[trigger] x.values@[i]).range.start && named(x.values@[i].name) by {
            let j = fits::lemma_picked_from(block.inner, Rule::enum_value, i);
            let v = block.inner[j];
            assert(syntax::is_enum_value(x.values@[i], ps[i]));
            assert(tree::placed(s, v) && tree::well_formed(v));
            syntax::lemma_enum_value(v);
            lemma_named(x.values@[i].name, v, tree::attrs(v.inner), s);
            assert(n.inner[k].end <= n.inner[k + 1].start);
        }
        assert forall|a: int, b: int| 0 <= a < b < x.values@.len() implies (
        #[trigger] x.values@[a]).range.end <= (#[trigger] x.values@[b]).range.start by {
            let j = lemma_picked_two(block.inner, Rule::enum_value, a, b);
            assert(syntax::is_enum_value(x.values@[a], ps[a]));
            assert(syntax::is_enum_value(x.values@[b], ps[b]));
            assert(block.inner[j.0].end <= block.inner[j.1].start);
        }
    }
}

proof fn lemma_parameters_in_order(xs: Seq<Parameter>, list: Node, s: Seq<u8>)
    requires
        tree::well_formed(list),
        tree::placed(s, list),
        syntax::are_parameters(xs, syntax::picked(list.inner, Rule::parameter)),
    ensures
        parameters_in_order(xs),
        forall|i: int|
            0 <= i < xs.len() ==> list.start <= (#[trigger] xs[i]).range.start && xs[i].range.end
                <= list.end,
{
    let ps = syntax::picked(list.inner, Rule::parameter);
    assert forall|i: int| 0 <= i < xs.len() implies named((#[trigger] xs[i]).name) && list.start
        <= xs[i].range.start && xs[i].range.end <= list.end by {
        let j = fits::lemma_picked_from(list.inner, Rule::parameter, i);
        let v = list.inner[j];
        assert(syntax::is_parameter(xs[i], ps[i]));
        assert(tree::placed(s, v) && tree::well_formed(v));
        syntax::lemma_parameter(v);
        lemma_named(xs[i].name, v, 1, s);
    }
    assert forall|a: int, b: int| 0 <= a < b < xs.len() implies (#[trigger] xs[a]).range.end <= (
    #[trigger] xs[b]).range.start by {
        let j = lemma_picked_two(list.inner, Rule::parameter, a, b);
        assert(syntax::is_parameter(xs[a], ps[a]));
        assert(syntax::is_parameter(xs[b], ps[b]));
        assert(list.inner[j.0].end <= list.inner[j.1].start);
    }
}

proof fn lemma_method_in_order(x: Method, n: Node, s: Seq<u8>)
    requires
        n.rule == Rule::method_stmt,
        tree::well_formed(n),
        tree::placed(s, n),
        syntax::is_method(x, n),
    ensures
        method_in_order(x),
{
    syntax::lemma_method(n);
    let k = tree::attrs(n.inner);
    let j = k + syntax::after_ordinal(n, 1);
    lemma_named(x.name, n, k, s);
    let list = n.inner[j];
    assert(tree::placed(s, list) && tree::well_formed(list));
    lemma_parameters_in_order(x.params@, list, s);
    assert(n.inner[k].end <= n.inner[j].start);
    if let Some(response) = x.response {
        let r = n.inner[j + 1];
        assert(tree::placed(s, r) && tree::well_formed(r));
        syntax::lemma_response(r);
        let inner = r.inner[1];
        assert(tree::placed(s, inner) && tree::well_formed(inner));
        lemma_parameters_in_order(response.params@, inner, s);
        assert(n.inner[k].end <= n.inner[j + 1].start);
        assert(n.inner[j].end <= n.inner[j + 1].start);
    }
}

proof fn lemma_const_in_order(x: Const, n: Node, s: Seq<u8>)
    requires
        n.rule == Rule::const_stmt,
        tree::well_formed(n),
        tree::placed(s, n),
        syntax::is_const(x, n),
    ensures
        named(x.name),
{
    syntax::lemma_const(n);
    lemma_named(x.name, n, tree::attrs(n.inner) + 2, s);
}

/// A member of an interface stands inside the node around it.
proof fn lemma_member_inside(m: InterfaceMember, n: Node, s: Seq<u8>)
    requires
        n.rule == Rule::interface_body,
        tree::well_formed(n),
        tree::placed(s, n),
        syntax::is_interface_member(m, n),
    ensures
        n.start <= member_range(m).start,
        member_range(m).end <= n.end,
        member_in_order(m),
{
    syntax::lemma_interface_body(n);
    let x = n.inner[0];
    assert(tree::placed(s, x) && tree::well_formed(x));
    match m {
        InterfaceMember::Const(c) => lemma_const_in_order(c, x, s),
        InterfaceMember::Enum(e) => lemma_enum_in_order(e, x, s),
        InterfaceMember::Method(f) => lemma_method_in_order(f, x, s),
    }
}

/// A member of a struct stands inside the node around it.
proof fn lemma_struct_member_inside(m: StructBody, n: Node, s: Seq<u8>)
    requires
        n.rule == Rule::struct_item,
        tree::well_formed(n),
        tree::placed(s, n),
        syntax::is_struct_member(m, n),
    ensures
        n.start <= struct_member_range(m).start,
        struct_member_range(m).end <= n.end,
        struct_member_in_order(m),
{
    syntax::lemma_struct_item(n);
    let x = n.inner[0];
    assert(tree::placed(s, x) && tree::well_formed(x));
    match m {
        StructBody::Const(c) => lemma_const_in_order(c, x, s),
        StructBody::Enum(e) => lemma_enum_in_order(e, x, s),
        StructBody::Field(f) => {
            syntax::lemma_struct_field(x);
            lemma_named(f.name, x, tree::attrs(x.inner) + 1, s);
        },
    }
}

proof fn lemma_interface_in_order(x: Interface, n: Node, s: Seq<u8>)
    requires
        n.rule == Rule::interface,
        tree::well_formed(n),
        tree::placed(s, n),
        syntax::is_interface(x, n),
    ensures
        interface_in_order(x),
{
    syntax::lemma_block(n, Rule::t_interface, Rule::interface_body);
    let k = tree::attrs(n.inner);
    let ps = syntax::picked(n.inner, Rule::interface_body);
    lemma_named(x.name, n, k + 1, s);
    assert forall|i: int| 0 <= i < x.members@.len() implies member_in_order(
        #[trigger] x.members@[i],
    ) && x.name.end <= member_range(x.members@[i]).start by {
        let j = fits::lemma_picked_from(n.inner, Rule::interface_body, i);
        assert(syntax::is_interface_member(x.members@[i], ps[i]));
        assert(tree::placed(s, n.inner[j]) && tree::well_formed(n.inner[j]));
        lemma_member_inside(x.members@[i], n.inner[j], s);
        assert(k + 1 < j);
        assert(n.inner[k + 1].end <= n.inner[j].start);
    }
    assert forall|a: int, b: int| 0 <= a < b < x.members@.len() implies member_range(
        #[trigger] x.members@[a],
    ).end <= member_range(#[trigger] x.members@[b]).start by {
        let j = lemma_picked_two(n.inner, Rule::interface_body, a, b);
        assert(syntax::is_interface_member(x.members@[a], ps[a]));
        assert(syntax::is_interface_member(x.members@[b], ps[b]));
        assert(tree::placed(s, n.inner[j.0]) && tree::well_formed(n.inner[j.0]));
        assert(tree::placed(s, n.inner[j.1]) && tree::well_formed(n.inner[j.1]));
        lemma_member_inside(x.members@[a], n.inner[j.0], s);
        lemma_member_inside(x.members@[b], n.inner[j.1], s);
        assert(n.inner[j.0].end <= n.inner[j.1].start);
    }
}

proof fn lemma_struct_in_order(x: Struct, n: Node, s: Seq<u8>)
    requires
        n.rule == Rule::struct_stmt,
        tree::well_formed(n),
        tree::placed(s, n),
        syntax::is_struct(x, n),
    ensures
        struct_in_order(x),
{
    syntax::lemma_struct(n);
    let k = tree::attrs(n.inner);
    let ps = syntax::struct_member_nodes(n);
    lemma_named(x.name, n, k + 1, s);
    if x.members@.len() > 0 {
        let body = n.inner[k + 2];
        assert(tree::placed(s, body) && tree::well_formed(body));
        assert forall|i: int| 0 <= i < x.members@.len() implies struct_member_in_order(
            #[trigger] x.members@[i],
        ) && x.name.end <= struct_member_range(x.members@[i]).start by {
            let j = fits::lemma_picked_from(body.inner, Rule::struct_item, i);
            assert(syntax::is_struct_member(x.members@[i], ps[i]));
            assert(tree::placed(s, body.inner[j]) && tree::well_formed(body.inner[j]));
            lemma_struct_member_inside(x.members@[i], body.inner[j], s);
            assert(n.inner[k + 1].end <= n.inner[k + 2].start);
        }
        assert forall|a: int, b: int| 0 <= a < b < x.members@.len() implies struct_member_range(
            #[trigger] x.members@[a],
        ).end <= struct_member_range(#[trigger] x.members@[b]).start by {
            let j = lemma_picked_two(body.inner, Rule::struct_item, a, b);
            assert(syntax::is_struct_member(x.members@[a], ps[a]));
            assert(syntax::is_struct_member(x.members@[b], ps[b]));
            assert(tree::placed(s, body.inner[j.0]) && tree::well_formed(body.inner[j.0]));
            assert(tree::placed(s, body.inner[j.1]) && tree::well_formed(body.inner[j.1]));
            lemma_struct_member_inside(x.members@[a], body.inner[j.0], s);
            lemma_struct_member_inside(x.members@[b], body.inner[j.1], s);
            assert(body.inner[j.0].end <= body.inner[j.1].start);
        }
    }
}

proof fn lemma_union_in_order(x: Union, n: Node, s: Seq<u8>)
    requires
        n.rule == Rule::union_stmt,
        tree::well_formed(n),
        tree::placed(s, n),
        syntax::is_union(x, n),
    ensures
        union_in_order(x),
{
    syntax::lemma_block(n, Rule::t_union, Rule::union_field);
    let k = tree::attrs(n.inner);
    let ps = syntax::picked(n.inner, Rule::union_field);
    lemma_named(x.name, n, k + 1, s);
    assert forall|i: int| 0 <= i < x.fields@.len() implies x.name.end <= (
    #[trigger] x.fields@[i]).range.start && named(x.fields@[i].name) by {
        let j = fits::lemma_picked_from(n.inner, Rule::union_field, i);
        let v = n.inner[j];
        assert(syntax::is_union_field(x.fields@[i], ps[i]));
        assert(tree::placed(s, v) && tree::well_formed(v));
        syntax::lemma_union_field(v);
        lemma_named(x.fields@[i].name, v, tree::attrs(v.inner) + 1, s);
        assert(k + 1 < j);
        assert(n.inner[k + 1].end <= n.inner[j].start);
    }
    assert forall|a: int, b: int| 0 <= a < b < x.fields@.len() implies (
    #[trigger] x.fields@[a]).range.end <= (#[trigger] x.fields@[b]).range.start by {
        let j = lemma_picked_two(n.inner, Rule::union_field, a, b);
        assert(syntax::is_union_field(x.fields@[a], ps[a]));
        assert(syntax::is_union_field(x.fields@[b], ps[b]));
        assert(n.inner[j.0].end <= n.inner[j.1].start);
    }
}

/// What holds inside the statement around which `n` stands.
proof fn lemma_statement_in_order(m: Statement, n: Node, s: Seq<u8>)
    requires
        n.rule == Rule::statement,
        tree::well_formed(n),
        tree::placed(s, n),
        syntax::is_statement(m, n),
    ensures
        statement_in_order(m),
{
    syntax::lemma_statement(n);
    let y = n.inner[0];
    assert(tree::placed(s, y) && tree::well_formed(y));
    let k = tree::attrs(y.inner);
    match m {
        Statement::Module(x) => {
            syntax::lemma_module(y);
            lemma_named(x.name, y, k + 1, s);
        },
        Statement::Import(x) => {
            syntax::lemma_import(y);
            lemma_named(x.path, y, k + 1, s);
        },
        Statement::Interface(x) => lemma_interface_in_order(x, y, s),
        Statement::Struct(x) => lemma_struct_in_order(x, y, s),
        Statement::Union(x) => lemma_union_in_order(x, y, s),
        Statement::Enum(x) => lemma_enum_in_order(x, y, s),
        Statement::Const(x) => lemma_const_in_order(x, y, s),
    }
}

/// The statements of a document stand one behind the other, and so does what they hold: the
/// name and then the members of an interface or a struct, the fields of a union, the values of
/// an enum, the parameters of a method and those of its response. No name is empty.
pub proof fn document_is_in_order(m: MojomFile, input: Seq<char>)
    requires
        syntax::is_tree_of(m, input),
    ensures
        statements_in_order(m.stmts@),
        forall|i: int| 0 <= i < m.stmts@.len() ==> statement_in_order(#[trigger] m.stmts@[i]),
{
    parser::lemma_parsed(Rule::mojom_file, input);
    let s = text::utf8(input);
    let n = parser::parsed(Rule::mojom_file, input).hit->0.nodes[0];
    assert(tree::placed(s, n));
    let ps = syntax::picked(n.inner, Rule::statement);
    assert forall|a: int, b: int| 0 <= a < b < m.stmts@.len() implies statement_range(
        #[trigger] m.stmts@[a],
    ).end <= statement_range(#[trigger] m.stmts@[b]).start by {
        let j = lemma_picked_two(n.inner, Rule::statement, a, b);
        assert(syntax::is_statement(m.stmts@[a], ps[a]));
        assert(syntax::is_statement(m.stmts@[b], ps[b]));
        assert(tree::placed(s, n.inner[j.0]) && tree::well_formed(n.inner[j.0]));
        assert(tree::placed(s, n.inner[j.1]) && tree::well_formed(n.inner[j.1]));
        lemma_statement_inside(m.stmts@[a], n.inner[j.0], s);
        lemma_statement_inside(m.stmts@[b], n.inner[j.1], s);
        assert(n.inner[j.0].end <= n.inner[j.1].start);
    }
    assert forall|i: int| 0 <= i < m.stmts@.len() implies statement_in_order(
        #[trigger] m.stmts@[i],
    ) by {
        let j = fits::lemma_picked_from(n.inner, Rule::statement, i);
        assert(syntax::is_statement(m.stmts@[i], ps[i]));
        assert(tree::placed(s, n.inner[j]) && tree::well_formed(n.inner[j]));
        lemma_statement_in_order(m.stmts@[i], n.inner[j], s);
    }
}

/// What stands in an interface at a byte of its name is the interface.
proof fn lemma_interface_symbol(ast: MojomAst, x: Interface, offset: int)
    requires
        fits::interface_fits(x, text::utf8(ast.text@)),
        mojomast::holds(x.name, offset),
    ensures
        ast.symbol_in(x, offset) == Some(ast.symbol(Class::Interface, x.name, x.range)),
{
}

/// What stands in an interface at a byte of the name of a method is the method.
proof fn lemma_method_symbol(ast: MojomAst, x: Interface, k: int, from: int, offset: int)
    requires
        fits::interface_fits(x, text::utf8(ast.text@)),
        interface_in_order(x),
        0 <= from <= k < x.members@.len(),
        x.members@[k] matches InterfaceMember::Method(m) && mojomast::holds(m.name, offset),
    ensures
        ast.method_at(x, x.members@.skip(from), offset) == Some(
            ast.interface_member_symbol(x, x.members@[k]),
        ),
    decreases k - from,
{
    let ms = x.members@;
    assert(fits::interface_member_fits(ms[k], x.range, text::utf8(ast.text@)));
    if from < k {
        assert(ms.skip(from).skip(1) =~= ms.skip(from + 1));
        assert(fits::interface_member_fits(ms[from], x.range, text::utf8(ast.text@)));
        assert(member_range(ms[from]).end <= member_range(ms[k]).start);
        lemma_method_symbol(ast, x, k, from + 1, offset);
    }
}

/// An interface that does not hold a byte has nothing there.
proof fn lemma_symbol_in_statement(ast: MojomAst, i: int, from: int, offset: int)
    requires
        fits::file_fits(ast.mojom, text::utf8(ast.text@)),
        statements_in_order(ast.mojom.stmts@),
        0 <= from <= i < ast.mojom.stmts@.len(),
        ast.mojom.stmts@[i] matches Statement::Interface(x) && mojomast::holds(x.range, offset)
            && ast.symbol_in(x, offset) is Some,
    ensures
        ast.symbol_at(ast.mojom.stmts@.skip(from), offset) == ast.symbol_in(
            ast.mojom.stmts@[i]->Interface_0,
            offset,
        ),
    decreases i - from,
{
    let stmts = ast.mojom.stmts@;
    if from < i {
        assert(stmts.skip(from).skip(1) =~= stmts.skip(from + 1));
        assert(statement_range(stmts[from]).end <= statement_range(stmts[i]).start);
        lemma_symbol_in_statement(ast, i, from + 1, offset);
    }
}

/// The symbol that is found at a byte of the name of an interface is the one of that
/// interface, and at a byte of the name of a method the one of that method.
pub proof fn name_leads_to_its_symbol(ast: MojomAst, i: int, offset: int)
    requires
        syntax::is_tree_of(ast.mojom, ast.text@),
        0 <= i < ast.mojom.stmts@.len(),
        ast.mojom.stmts@[i] is Interface,
    ensures
        ({
            let x = ast.mojom.stmts@[i]->Interface_0;
            let found = ast.symbol_at(ast.mojom.stmts@, offset);
            &&& mojomast::holds(x.name, offset) ==> found == Some(
                ast.symbol(Class::Interface, x.name, x.range),
            )
            &&& forall|k: int|
                0 <= k < x.members@.len() ==> (
                #[trigger] x.members@[k] matches InterfaceMember::Method(m) && mojomast::holds(
                    m.name,
                    offset,
                ) ==> found == Some(ast.interface_member_symbol(x, x.members@[k])))
        }),
{
    document_is_in_order(ast.mojom, ast.text@);
    let stmts = ast.mojom.stmts@;
    let x = stmts[i]->Interface_0;
    let found = ast.symbol_at(stmts, offset);
    assert(stmts.skip(0) =~= stmts);
    assert(fits::statement_fits(stmts[i], text::utf8(ast.text@)));
    assert(statement_in_order(stmts[i]));
    if mojomast::holds(x.name, offset) {
        lemma_interface_symbol(ast, x, offset);
        lemma_symbol_in_statement(ast, i, 0, offset);
    }
    assert forall|k: int|
        0 <= k < x.members@.len() && #[trigger] x.members@[k] is Method && mojomast::holds(
            x.members@[k]->Method_0.name,
            offset,
        ) implies found == Some(ast.interface_member_symbol(x, x.members@[k])) by {
        assert(x.members@.skip(0) =~= x.members@);
        assert(fits::interface_member_fits(x.members@[k], x.range, text::utf8(ast.text@)));
        lemma_method_symbol(ast, x, k, 0, offset);
        lemma_symbol_in_statement(ast, i, 0, offset);
    }
}

/// The position at which a symbol is shown leads to it: what is found where the name of an
/// interface starts is that interface, and where the name of a method starts that method. No
/// line before the name may end with a carriage return, and its own line must be ASCII up to
/// it.
pub proof fn shown_position_leads_to_the_symbol(ast: MojomAst, i: int, name: Range)
    requires
        syntax::is_tree_of(ast.mojom, ast.text@),
        0 <= i < ast.mojom.stmts@.len(),
        ast.mojom.stmts@[i] is Interface,
        laws::no_carriage_returns(text::part(ast.text@, 0, name.start as int)),
        laws::ends_in_ascii(text::part(ast.text@, 0, name.start as int)),
        text::line_feeds(text::part(ast.text@, 0, name.start as int)) <= u32::MAX,
        text::last_line_len(text::part(ast.text@, 0, name.start as int)) <= u32::MAX,
    ensures
        ({
            let x = ast.mojom.stmts@[i]->Interface_0;
            let found = ast.symbol_at_position(ast.lsp_range_at(name).start);
            &&& name == x.name ==> found == Some(ast.symbol(Class::Interface, x.name, x.range))
            &&& forall|k: int|
                0 <= k < x.members@.len() ==> (
                #[trigger] x.members@[k] matches InterfaceMember::Method(m) && m.name == name
                    ==> found == Some(ast.interface_member_symbol(x, x.members@[k])))
        }),
{
    let offset = name.start as int;
    let x = ast.mojom.stmts@[i]->Interface_0;
    assert(fits::statement_fits(ast.mojom.stmts@[i], text::utf8(ast.text@)));
    document_is_in_order(ast.mojom, ast.text@);
    assert(statement_in_order(ast.mojom.stmts@[i]));
    name_leads_to_its_symbol(ast, i, offset);
    let found = ast.symbol_at_position(ast.lsp_range_at(name).start);
    if name == x.name {
        laws::position_leads_back(ast.text@, offset);
    }
    assert forall|k: int|
        0 <= k < x.members@.len() && #[trigger] x.members@[k] is Method
            && x.members@[k]->Method_0.name == name implies found == Some(
        ast.interface_member_symbol(x, x.members@[k]),
    ) by {
        assert(fits::interface_member_fits(x.members@[k], x.range, text::utf8(ast.text@)));
        laws::position_leads_back(ast.text@, offset);
    }
}

} // verus!
