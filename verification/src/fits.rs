//! The ranges of a syntax tree lie in the text that it was built from.
use vstd::prelude::*;

use crate::grammar::Rule;
use crate::peg::Node;
use crate::syntax;
use crate::syntax::{
    Const, Enum, EnumValue, Import, Interface, InterfaceMember, Method, Module, MojomFile,
    Parameter, Range, Response, Statement, Struct, StructBody, StructField, Union, UnionField,
};
use crate::text;
use crate::tree;

verus! {

/// Whether `r` is a part of the text `s`, made of whole characters.
pub open spec fn range_fits(r: Range, s: Seq<u8>) -> bool {
    r.start <= r.end && text::boundary(s, r.start as int) && text::boundary(s, r.end as int)
}

/// Whether `r` is a part of `s` inside `outer`.
pub open spec fn fits_in(r: Range, outer: Range, s: Seq<u8>) -> bool {
    range_fits(r, s) && outer.start <= r.start && r.end <= outer.end
}

/// Whether what is there of `r` is a part of `s` inside `outer`.
pub open spec fn optional_fits_in(r: Option<Range>, outer: Range, s: Seq<u8>) -> bool {
    r matches Some(range) ==> fits_in(range, outer, s)
}

pub open spec fn module_fits(m: Module, s: Seq<u8>) -> bool {
    range_fits(m.range, s) && fits_in(m.name, m.range, s)
}

/// The path of an import stands between quotes.
pub open spec fn import_fits(m: Import, s: Seq<u8>) -> bool {
    &&& range_fits(m.range, s)
    &&& fits_in(m.path, m.range, s)
    &&& tree::quoted(s, m.path.start as int, m.path.end as int)
}

pub open spec fn const_fits(m: Const, s: Seq<u8>) -> bool {
    &&& range_fits(m.range, s)
    &&& fits_in(m.typ, m.range, s)
    &&& fits_in(m.name, m.range, s)
    &&& fits_in(m.value, m.range, s)
}

pub open spec fn enum_value_fits(m: EnumValue, s: Seq<u8>) -> bool {
    &&& range_fits(m.range, s)
    &&& fits_in(m.name, m.range, s)
    &&& optional_fits_in(m.value, m.range, s)
}

pub open spec fn enum_fits(m: Enum, s: Seq<u8>) -> bool {
    &&& range_fits(m.range, s)
    &&& fits_in(m.name, m.range, s)
    &&& forall|i: int|
        0 <= i < m.values@.len() ==> enum_value_fits(#[trigger] m.values@[i], s) && fits_in(
            m.values@[i].range,
            m.range,
            s,
        )
}

pub open spec fn struct_field_fits(m: StructField, s: Seq<u8>) -> bool {
    &&& range_fits(m.range, s)
    &&& fits_in(m.typ, m.range, s)
    &&& fits_in(m.name, m.range, s)
    &&& optional_fits_in(m.ordinal, m.range, s)
    &&& optional_fits_in(m.default, m.range, s)
}

pub open spec fn struct_member_fits(m: StructBody, outer: Range, s: Seq<u8>) -> bool {
    match m {
        StructBody::Const(c) => const_fits(c, s) && fits_in(c.range, outer, s),
        StructBody::Enum(e) => enum_fits(e, s) && fits_in(e.range, outer, s),
        StructBody::Field(f) => struct_field_fits(f, s) && fits_in(f.range, outer, s),
    }
}

pub open spec fn struct_fits(m: Struct, s: Seq<u8>) -> bool {
    &&& range_fits(m.range, s)
    &&& fits_in(m.name, m.range, s)
    &&& forall|i: int|
        0 <= i < m.members@.len() ==> struct_member_fits(#[trigger] m.members@[i], m.range, s)
}

pub open spec fn union_field_fits(m: UnionField, s: Seq<u8>) -> bool {
    &&& range_fits(m.range, s)
    &&& fits_in(m.typ, m.range, s)
    &&& fits_in(m.name, m.range, s)
    &&& optional_fits_in(m.ordinal, m.range, s)
}

pub open spec fn union_fits(m: Union, s: Seq<u8>) -> bool {
    &&& range_fits(m.range, s)
    &&& fits_in(m.name, m.range, s)
    &&& forall|i: int|
        0 <= i < m.fields@.len() ==> union_field_fits(#[trigger] m.fields@[i], s) && fits_in(
            m.fields@[i].range,
            m.range,
            s,
        )
}

pub open spec fn parameter_fits(m: Parameter, s: Seq<u8>) -> bool {
    &&& range_fits(m.range, s)
    &&& fits_in(m.typ, m.range, s)
    &&& fits_in(m.name, m.range, s)
    &&& optional_fits_in(m.ordinal, m.range, s)
}

pub open spec fn parameters_fit(ms: Seq<Parameter>, outer: Range, s: Seq<u8>) -> bool {
    forall|i: int|
        0 <= i < ms.len() ==> parameter_fits(#[trigger] ms[i], s) && fits_in(ms[i].range, outer, s)
}

pub open spec fn response_fits(m: Response, s: Seq<u8>) -> bool {
    range_fits(m.range, s) && parameters_fit(m.params@, m.range, s)
}

pub open spec fn method_fits(m: Method, s: Seq<u8>) -> bool {
    &&& range_fits(m.range, s)
    &&& fits_in(m.name, m.range, s)
    &&& optional_fits_in(m.ordinal, m.range, s)
    &&& parameters_fit(m.params@, m.range, s)
    &&& m.response matches Some(r) ==> response_fits(r, s) && fits_in(r.range, m.range, s)
}

pub open spec fn interface_member_fits(m: InterfaceMember, outer: Range, s: Seq<u8>) -> bool {
    match m {
        InterfaceMember::Const(c) => const_fits(c, s) && fits_in(c.range, outer, s),
        InterfaceMember::Enum(e) => enum_fits(e, s) && fits_in(e.range, outer, s),
        InterfaceMember::Method(f) => method_fits(f, s) && fits_in(f.range, outer, s),
    }
}

pub open spec fn interface_fits(m: Interface, s: Seq<u8>) -> bool {
    &&& range_fits(m.range, s)
    &&& fits_in(m.name, m.range, s)
    &&& forall|i: int|
        0 <= i < m.members@.len() ==> interface_member_fits(#[trigger] m.members@[i], m.range, s)
}

pub open spec fn statement_fits(m: Statement, s: Seq<u8>) -> bool {
    match m {
        Statement::Module(x) => module_fits(x, s),
        Statement::Import(x) => import_fits(x, s),
        Statement::Interface(x) => interface_fits(x, s),
        Statement::Struct(x) => struct_fits(x, s),
        Statement::Union(x) => union_fits(x, s),
        Statement::Enum(x) => enum_fits(x, s),
        Statement::Const(x) => const_fits(x, s),
    }
}

/// Whether every range in `m` is a part of `s`, made of whole characters, and lies inside
/// the ranges around it.
pub open spec fn file_fits(m: MojomFile, s: Seq<u8>) -> bool {
    forall|i: int| 0 <= i < m.stmts@.len() ==> statement_fits(#[trigger] m.stmts@[i], s)
}

/// Where a picked node stands.
pub(crate) proof fn lemma_picked_from(ns: Seq<Node>, r: Rule, i: int) -> (j: int)
    requires
        0 <= i < syntax::picked(ns, r).len(),
    ensures
        0 <= j < ns.len(),
        ns[j] == syntax::picked(ns, r)[i],
        ns[j].rule == r,
    decreases ns.len(),
{
    let rest = ns.skip(1);
    if ns[0].rule == r {
        if i == 0 {
            0
        } else {
            let k = lemma_picked_from(rest, r, i - 1);
            assert(rest[k] == ns[k + 1]);
            k + 1
        }
    } else {
        let k = lemma_picked_from(rest, r, i);
        assert(rest[k] == ns[k + 1]);
        k + 1
    }
}

/// A child lies in its parent.
proof fn lemma_child(n: Node, i: int, r: Range, outer: Range, s: Seq<u8>)
    requires
        tree::placed(s, n),
        0 <= i < n.inner.len(),
        r.is_of(n.inner[i]),
        outer.is_of(n),
    ensures
        fits_in(r, outer, s),
        tree::placed(s, n.inner[i]),
{
    assert(tree::placed(s, n.inner[i]));
}

proof fn lemma_module(m: Module, n: Node, s: Seq<u8>)
    requires
        n.rule == Rule::module_stmt,
        tree::well_formed(n),
        tree::placed(s, n),
        syntax::is_module(m, n),
    ensures
        module_fits(m, s),
{
    syntax::lemma_module(n);
    lemma_child(n, tree::attrs(n.inner) + 1, m.name, m.range, s);
}

proof fn lemma_import(m: Import, n: Node, s: Seq<u8>)
    requires
        n.rule == Rule::import_stmt,
        tree::well_formed(n),
        tree::placed(s, n),
        syntax::is_import(m, n),
    ensures
        import_fits(m, s),
{
    syntax::lemma_import(n);
    lemma_child(n, tree::attrs(n.inner) + 1, m.path, m.range, s);
}

/// A grandchild lies in its grandparent.
proof fn lemma_grandchild(n: Node, i: int, j: int, r: Range, outer: Range, s: Seq<u8>)
    requires
        tree::placed(s, n),
        0 <= i < n.inner.len(),
        0 <= j < n.inner[i].inner.len(),
        r.is_of(n.inner[i].inner[j]),
        outer.is_of(n),
    ensures
        fits_in(r, outer, s),
        tree::placed(s, n.inner[i].inner[j]),
{
    assert(tree::placed(s, n.inner[i]));
    assert(tree::placed(s, n.inner[i].inner[j]));
}

proof fn lemma_const(m: Const, n: Node, s: Seq<u8>)
    requires
        n.rule == Rule::const_stmt,
        tree::well_formed(n),
        tree::placed(s, n),
        syntax::is_const(m, n),
    ensures
        const_fits(m, s),
{
    syntax::lemma_const(n);
    let k = tree::attrs(n.inner);
    lemma_grandchild(n, k + 1, 0, m.typ, m.range, s);
    lemma_child(n, k + 2, m.name, m.range, s);
    lemma_child(n, k + 4, m.value, m.range, s);
}

proof fn lemma_enum_value(m: EnumValue, n: Node, s: Seq<u8>)
    requires
        n.rule == Rule::enum_value,
        tree::well_formed(n),
        tree::placed(s, n),
        syntax::is_enum_value(m, n),
    ensures
        enum_value_fits(m, s),
{
    syntax::lemma_enum_value(n);
    let k = tree::attrs(n.inner);
    lemma_child(n, k, m.name, m.range, s);
    if let Some(value) = m.value {
        lemma_child(n, k + 2, value, m.range, s);
    }
}

proof fn lemma_enum(m: Enum, n: Node, s: Seq<u8>)
    requires
        n.rule == Rule::enum_stmt,
        tree::well_formed(n),
        tree::placed(s, n),
        syntax::is_enum(m, n),
    ensures
        enum_fits(m, s),
{
    syntax::lemma_enum(n);
    let k = tree::attrs(n.inner);
    lemma_child(n, k, m.name, m.range, s);
    assert forall|i: int| 0 <= i < m.values@.len() implies enum_value_fits(
        #[trigger] m.values@[i],
        s,
    ) && fits_in(m.values@[i].range, m.range, s) by {
        let block = n.inner[k + 1];
        let j = lemma_picked_from(block.inner, Rule::enum_value, i);
        assert(syntax::is_enum_value(m.values@[i], block.inner[j]));
        lemma_grandchild(n, k + 1, j, m.values@[i].range, m.range, s);
        assert(tree::well_formed(block));
        assert(tree::well_formed(block.inner[j]));
        lemma_enum_value(m.values@[i], block.inner[j], s);
    }
}

proof fn lemma_struct_field(m: StructField, n: Node, s: Seq<u8>)
    requires
        n.rule == Rule::struct_field,
        tree::well_formed(n),
        tree::placed(s, n),
        syntax::is_struct_field(m, n),
    ensures
        struct_field_fits(m, s),
{
    syntax::lemma_struct_field(n);
    let k = tree::attrs(n.inner);
    lemma_grandchild(n, k, 0, m.typ, m.range, s);
    lemma_child(n, k + 1, m.name, m.range, s);
    if let Some(ordinal) = m.ordinal {
        lemma_child(n, k + 2, ordinal, m.range, s);
    }
    if let Some(value) = m.default {
        lemma_grandchild(n, k + syntax::after_ordinal(n, 2), 1, value, m.range, s);
    }
}

proof fn lemma_struct(m: Struct, n: Node, s: Seq<u8>)
    requires
        n.rule == Rule::struct_stmt,
        tree::well_formed(n),
        tree::placed(s, n),
        syntax::is_struct(m, n),
    ensures
        struct_fits(m, s),
{
    syntax::lemma_struct(n);
    let k = tree::attrs(n.inner);
    lemma_child(n, k + 1, m.name, m.range, s);
    assert forall|i: int| 0 <= i < m.members@.len() implies struct_member_fits(
        #[trigger] m.members@[i],
        m.range,
        s,
    ) by {
        let body = n.inner[k + 2];
        let j = lemma_picked_from(body.inner, Rule::struct_item, i);
        let item = body.inner[j];
        assert(tree::placed(s, body));
        assert(tree::well_formed(body));
        assert(tree::placed(s, item));
        assert(tree::well_formed(item));
        syntax::lemma_struct_item(item);
        let x = item.inner[0];
        assert(tree::placed(s, x));
        assert(tree::well_formed(x));
        assert(syntax::is_struct_member(m.members@[i], item));
        match m.members@[i] {
            StructBody::Const(c) => lemma_const(c, x, s),
            StructBody::Enum(e) => lemma_enum(e, x, s),
            StructBody::Field(f) => lemma_struct_field(f, x, s),
        }
    }
}

proof fn lemma_union_field(m: UnionField, n: Node, s: Seq<u8>)
    requires
        n.rule == Rule::union_field,
        tree::well_formed(n),
        tree::placed(s, n),
        syntax::is_union_field(m, n),
    ensures
        union_field_fits(m, s),
{
    syntax::lemma_union_field(n);
    let k = tree::attrs(n.inner);
    lemma_grandchild(n, k, 0, m.typ, m.range, s);
    lemma_child(n, k + 1, m.name, m.range, s);
    if let Some(ordinal) = m.ordinal {
        lemma_child(n, k + 2, ordinal, m.range, s);
    }
}

proof fn lemma_union(m: Union, n: Node, s: Seq<u8>)
    requires
        n.rule == Rule::union_stmt,
        tree::well_formed(n),
        tree::placed(s, n),
        syntax::is_union(m, n),
    ensures
        union_fits(m, s),
{
    syntax::lemma_block(n, Rule::t_union, Rule::union_field);
    let k = tree::attrs(n.inner);
    lemma_child(n, k + 1, m.name, m.range, s);
    assert forall|i: int| 0 <= i < m.fields@.len() implies union_field_fits(
        #[trigger] m.fields@[i],
        s,
    ) && fits_in(m.fields@[i].range, m.range, s) by {
        let j = lemma_picked_from(n.inner, Rule::union_field, i);
        assert(syntax::is_union_field(m.fields@[i], n.inner[j]));
        lemma_child(n, j, m.fields@[i].range, m.range, s);
        lemma_union_field(m.fields@[i], n.inner[j], s);
    }
}

proof fn lemma_parameter(m: Parameter, n: Node, s: Seq<u8>)
    requires
        n.rule == Rule::parameter,
        tree::well_formed(n),
        tree::placed(s, n),
        syntax::is_parameter(m, n),
    ensures
        parameter_fits(m, s),
{
    syntax::lemma_parameter(n);
    lemma_grandchild(n, 0, 0, m.typ, m.range, s);
    lemma_child(n, 1, m.name, m.range, s);
    if let Some(ordinal) = m.ordinal {
        lemma_child(n, 2, ordinal, m.range, s);
    }
}

proof fn lemma_parameters(ms: Seq<Parameter>, n: Node, i: int, outer: Range, s: Seq<u8>)
    requires
        tree::well_formed(n),
        tree::placed(s, n),
        outer.is_of(n),
        0 <= i < n.inner.len(),
        syntax::are_parameters(ms, syntax::picked(n.inner[i].inner, Rule::parameter)),
    ensures
        parameters_fit(ms, outer, s),
{
    let list = n.inner[i];
    assert forall|q: int| 0 <= q < ms.len() implies parameter_fits(#[trigger] ms[q], s) && fits_in(
        ms[q].range,
        outer,
        s,
    ) by {
        let j = lemma_picked_from(list.inner, Rule::parameter, q);
        assert(syntax::is_parameter(ms[q], list.inner[j]));
        lemma_grandchild(n, i, j, ms[q].range, outer, s);
        assert(tree::well_formed(list));
        assert(tree::well_formed(list.inner[j]));
        lemma_parameter(ms[q], list.inner[j], s);
    }
}

proof fn lemma_method(m: Method, n: Node, s: Seq<u8>)
    requires
        n.rule == Rule::method_stmt,
        tree::well_formed(n),
        tree::placed(s, n),
        syntax::is_method(m, n),
    ensures
        method_fits(m, s),
{
    syntax::lemma_method(n);
    let k = tree::attrs(n.inner);
    let j = k + syntax::after_ordinal(n, 1);
    lemma_child(n, k, m.name, m.range, s);
    if let Some(ordinal) = m.ordinal {
        lemma_child(n, k + 1, ordinal, m.range, s);
    }
    lemma_parameters(m.params@, n, j, m.range, s);
    if let Some(response) = m.response {
        let x = n.inner[j + 1];
        lemma_child(n, j + 1, response.range, m.range, s);
        assert(tree::well_formed(x));
        syntax::lemma_response(x);
        lemma_parameters(response.params@, x, 1, response.range, s);
    }
}

proof fn lemma_interface(m: Interface, n: Node, s: Seq<u8>)
    requires
        n.rule == Rule::interface,
        tree::well_formed(n),
        tree::placed(s, n),
        syntax::is_interface(m, n),
    ensures
        interface_fits(m, s),
{
    syntax::lemma_block(n, Rule::t_interface, Rule::interface_body);
    let k = tree::attrs(n.inner);
    lemma_child(n, k + 1, m.name, m.range, s);
    assert forall|i: int| 0 <= i < m.members@.len() implies interface_member_fits(
        #[trigger] m.members@[i],
        m.range,
        s,
    ) by {
        let j = lemma_picked_from(n.inner, Rule::interface_body, i);
        let item = n.inner[j];
        assert(tree::placed(s, item));
        assert(tree::well_formed(item));
        syntax::lemma_interface_body(item);
        let x = item.inner[0];
        assert(tree::placed(s, x));
        assert(tree::well_formed(x));
        assert(syntax::is_interface_member(m.members@[i], item));
        match m.members@[i] {
            InterfaceMember::Const(c) => lemma_const(c, x, s),
            InterfaceMember::Enum(e) => lemma_enum(e, x, s),
            InterfaceMember::Method(f) => lemma_method(f, x, s),
        }
    }
}

/// Every range of a syntax tree is a part of the text, made of whole characters, and lies
/// inside the ranges around it.
pub proof fn lemma_file(m: MojomFile, n: Node, s: Seq<u8>)
    requires
        n.rule == Rule::mojom_file,
        tree::well_formed(n),
        tree::placed(s, n),
        syntax::is_mojom_file(m, n),
    ensures
        file_fits(m, s),
{
    assert forall|i: int| 0 <= i < m.stmts@.len() implies statement_fits(
        #[trigger] m.stmts@[i],
        s,
    ) by {
        let j = lemma_picked_from(n.inner, Rule::statement, i);
        let item = n.inner[j];
        assert(tree::placed(s, item));
        assert(tree::well_formed(item));
        syntax::lemma_statement(item);
        let x = item.inner[0];
        assert(tree::placed(s, x));
        assert(tree::well_formed(x));
        assert(syntax::is_statement(m.stmts@[i], item));
        match m.stmts@[i] {
            Statement::Module(y) => lemma_module(y, x, s),
            Statement::Import(y) => lemma_import(y, x, s),
            Statement::Interface(y) => lemma_interface(y, x, s),
            Statement::Struct(y) => lemma_struct(y, x, s),
            Statement::Union(y) => lemma_union(y, x, s),
            Statement::Enum(y) => lemma_enum(y, x, s),
            Statement::Const(y) => lemma_const(y, x, s),
        }
    }
}

} // verus!
