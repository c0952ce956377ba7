//! Syntax trees that differ only in where they stand.
use vstd::prelude::*;

use crate::fits;
use crate::grammar::Rule;
use crate::moved;
use crate::peg::Node;
use crate::syntax;
use crate::syntax::{
    Const, Enum, EnumValue, Import, Interface, InterfaceMember, Method, Module, Parameter, Range,
    Response, Statement, Struct, StructBody, StructField, Union, UnionField,
};
use crate::tree;

verus! {

/// Whether `b` is `a`, `k` bytes further on.
pub open spec fn range_moved(a: Range, b: Range, k: nat) -> bool {
    b.start == a.start + k && b.end == a.end + k
}

/// Whether `b` is `a`, `k` bytes further on, and neither is there without the other.
pub open spec fn optional_moved(a: Option<Range>, b: Option<Range>, k: nat) -> bool {
    match (a, b) {
        (Some(x), Some(y)) => range_moved(x, y, k),
        (None, None) => true,
        _ => false,
    }
}

/// Whether all ranges of `b` are those of `a`, `k` bytes further on.
pub open spec fn module_moved(a: Module, b: Module, k: nat) -> bool {
    range_moved(a.range, b.range, k) && range_moved(a.name, b.name, k)
}

/// Whether all ranges of `b` are those of `a`, `k` bytes further on.
pub open spec fn import_moved(a: Import, b: Import, k: nat) -> bool {
    range_moved(a.range, b.range, k) && range_moved(a.path, b.path, k)
}

/// Whether all ranges of `b` are those of `a`, `k` bytes further on.
pub open spec fn const_moved(a: Const, b: Const, k: nat) -> bool {
    &&& range_moved(a.range, b.range, k)
    &&& range_moved(a.typ, b.typ, k)
    &&& range_moved(a.name, b.name, k)
    &&& range_moved(a.value, b.value, k)
}

/// Whether all ranges of `b` are those of `a`, `k` bytes further on.
pub open spec fn enum_value_moved(a: EnumValue, b: EnumValue, k: nat) -> bool {
    &&& range_moved(a.range, b.range, k)
    &&& range_moved(a.name, b.name, k)
    &&& optional_moved(a.value, b.value, k)
}

/// Whether all ranges of `b`, those of its values too, are those of `a`, `k` bytes further on.
pub open spec fn enum_moved(a: Enum, b: Enum, k: nat) -> bool {
    &&& range_moved(a.range, b.range, k)
    &&& range_moved(a.name, b.name, k)
    &&& a.values@.len() == b.values@.len()
    &&& forall|i: int|
        0 <= i < a.values@.len() ==> enum_value_moved(#[trigger] a.values@[i], b.values@[i], k)
}

/// Whether all ranges of `b` are those of `a`, `k` bytes further on.
pub open spec fn struct_field_moved(a: StructField, b: StructField, k: nat) -> bool {
    &&& range_moved(a.range, b.range, k)
    &&& range_moved(a.typ, b.typ, k)
    &&& range_moved(a.name, b.name, k)
    &&& optional_moved(a.ordinal, b.ordinal, k)
    &&& optional_moved(a.default, b.default, k)
}

/// Whether `b` is such a member as `a`, `k` bytes further on.
pub open spec fn struct_member_moved(a: StructBody, b: StructBody, k: nat) -> bool {
    match (a, b) {
        (StructBody::Const(x), StructBody::Const(y)) => const_moved(x, y, k),
        (StructBody::Enum(x), StructBody::Enum(y)) => enum_moved(x, y, k),
        (StructBody::Field(x), StructBody::Field(y)) => struct_field_moved(x, y, k),
        _ => false,
    }
}

/// Whether all ranges of `b`, those of its members too, are those of `a`, `k` bytes further on.
pub open spec fn struct_moved(a: Struct, b: Struct, k: nat) -> bool {
    &&& range_moved(a.range, b.range, k)
    &&& range_moved(a.name, b.name, k)
    &&& a.members@.len() == b.members@.len()
    &&& forall|i: int|
        0 <= i < a.members@.len() ==> struct_member_moved(
            #[trigger] a.members@[i],
            b.members@[i],
            k,
        )
}

/// Whether all ranges of `b` are those of `a`, `k` bytes further on.
pub open spec fn union_field_moved(a: UnionField, b: UnionField, k: nat) -> bool {
    &&& range_moved(a.range, b.range, k)
    &&& range_moved(a.typ, b.typ, k)
    &&& range_moved(a.name, b.name, k)
    &&& optional_moved(a.ordinal, b.ordinal, k)
}

/// Whether all ranges of `b`, those of its fields too, are those of `a`, `k` bytes further on.
pub open spec fn union_moved(a: Union, b: Union, k: nat) -> bool {
    &&& range_moved(a.range, b.range, k)
    &&& range_moved(a.name, b.name, k)
    &&& a.fields@.len() == b.fields@.len()
    &&& forall|i: int|
        0 <= i < a.fields@.len() ==> union_field_moved(#[trigger] a.fields@[i], b.fields@[i], k)
}

/// Whether all ranges of `b` are those of `a`, `k` bytes further on.
pub open spec fn parameter_moved(a: Parameter, b: Parameter, k: nat) -> bool {
    &&& range_moved(a.range, b.range, k)
    &&& range_moved(a.typ, b.typ, k)
    &&& range_moved(a.name, b.name, k)
    &&& optional_moved(a.ordinal, b.ordinal, k)
}

/// Whether `b` are the parameters `a`, one by one, `k` bytes further on.
pub open spec fn parameters_moved(a: Seq<Parameter>, b: Seq<Parameter>, k: nat) -> bool {
    &&& a.len() == b.len()
    &&& forall|i: int| 0 <= i < a.len() ==> parameter_moved(#[trigger] a[i], b[i], k)
}

/// Whether all ranges of `b`, those of its parameters too, are those of `a`, `k` bytes further
/// on.
pub open spec fn response_moved(a: Response, b: Response, k: nat) -> bool {
    range_moved(a.range, b.range, k) && parameters_moved(a.params@, b.params@, k)
}

/// Whether all ranges of `b`, those of its parameters and its response too, are those of `a`,
/// `k` bytes further on.
pub open spec fn method_moved(a: Method, b: Method, k: nat) -> bool {
    &&& range_moved(a.range, b.range, k)
    &&& range_moved(a.name, b.name, k)
    &&& optional_moved(a.ordinal, b.ordinal, k)
    &&& parameters_moved(a.params@, b.params@, k)
    &&& match (a.response, b.response) {
        (Some(x), Some(y)) => response_moved(x, y, k),
        (None, None) => true,
        _ => false,
    }
}

/// Whether `b` is such a member as `a`, `k` bytes further on.
pub open spec fn interface_member_moved(a: InterfaceMember, b: InterfaceMember, k: nat) -> bool {
    match (a, b) {
        (InterfaceMember::Const(x), InterfaceMember::Const(y)) => const_moved(x, y, k),
        (InterfaceMember::Enum(x), InterfaceMember::Enum(y)) => enum_moved(x, y, k),
        (InterfaceMember::Method(x), InterfaceMember::Method(y)) => method_moved(x, y, k),
        _ => false,
    }
}

/// Whether all ranges of `b`, those of its members too, are those of `a`, `k` bytes further on.
pub open spec fn interface_moved(a: Interface, b: Interface, k: nat) -> bool {
    &&& range_moved(a.range, b.range, k)
    &&& range_moved(a.name, b.name, k)
    &&& a.members@.len() == b.members@.len()
    &&& forall|i: int|
        0 <= i < a.members@.len() ==> interface_member_moved(
            #[trigger] a.members@[i],
            b.members@[i],
            k,
        )
}

/// Whether `b` is such a statement as `a`, and all its ranges, the nested ones too, are those
/// of `a`, `k` bytes further on.
pub open spec fn statement_moved(a: Statement, b: Statement, k: nat) -> bool {
    match (a, b) {
        (Statement::Module(x), Statement::Module(y)) => module_moved(x, y, k),
        (Statement::Import(x), Statement::Import(y)) => import_moved(x, y, k),
        (Statement::Interface(x), Statement::Interface(y)) => interface_moved(x, y, k),
        (Statement::Struct(x), Statement::Struct(y)) => struct_moved(x, y, k),
        (Statement::Union(x), Statement::Union(y)) => union_moved(x, y, k),
        (Statement::Enum(x), Statement::Enum(y)) => enum_moved(x, y, k),
        (Statement::Const(x), Statement::Const(y)) => const_moved(x, y, k),
        _ => false,
    }
}

/// A node that is moved has an attribute list where it had one.
proof fn lemma_attrs(n: Node, m: Node, k: nat)
    requires
        moved::node_moved(n, m, k),
    ensures
        tree::attrs(n.inner) == tree::attrs(m.inner),
{
    if n.inner.len() > 0 {
        assert(moved::node_moved(n.inner[0], m.inner[0], k));
    }
}

/// A child moves along with its node.
proof fn lemma_child(n: Node, m: Node, k: nat, i: int)
    requires
        moved::node_moved(n, m, k),
        0 <= tree::attrs(n.inner) + i < n.inner.len(),
    ensures
        moved::node_moved(syntax::child(n, i), syntax::child(m, i), k),
{
    lemma_attrs(n, m, k);
    let j = tree::attrs(n.inner) + i;
    assert(moved::node_moved(n.inner[j], m.inner[j], k));
}

/// Picked nodes move along with the others.
proof fn lemma_picked(ns: Seq<Node>, ms: Seq<Node>, k: nat, r: Rule)
    requires
        moved::nodes_moved(ns, ms, k),
    ensures
        moved::nodes_moved(syntax::picked(ns, r), syntax::picked(ms, r), k),
    decreases ns.len(),
{
    if ns.len() > 0 {
        assert(moved::node_moved(ns[0], ms[0], k));
        let a = ns.skip(1);
        let b = ms.skip(1);
        assert forall|i: int| 0 <= i < a.len() implies moved::node_moved(
            #[trigger] a[i],
            b[i],
            k,
        ) by {
            assert(moved::node_moved(ns[i + 1], ms[i + 1], k));
        }
        lemma_picked(a, b, k, r);
        if ns[0].rule == r {
            assert(moved::nodes_moved(seq![ns[0]], seq![ms[0]], k));
            moved::lemma_append(
                seq![ns[0]],
                syntax::picked(a, r),
                seq![ms[0]],
                syntax::picked(b, r),
                k,
            );
        }
    }
}

proof fn lemma_const(x: Const, y: Const, n: Node, m: Node, k: nat)
    requires
        n.rule == Rule::const_stmt,
        tree::well_formed(n),
        moved::node_moved(n, m, k),
        syntax::is_const(x, n),
        syntax::is_const(y, m),
    ensures
        const_moved(x, y, k),
{
    syntax::lemma_const(n);
    lemma_child(n, m, k, 1);
    lemma_child(n, m, k, 2);
    lemma_child(n, m, k, 4);
    let a = syntax::child(n, 1);
    let b = syntax::child(m, 1);
    assert(moved::node_moved(a.inner[0], b.inner[0], k));
}

proof fn lemma_enum_value(x: EnumValue, y: EnumValue, n: Node, m: Node, k: nat)
    requires
        n.rule == Rule::enum_value,
        tree::well_formed(n),
        moved::node_moved(n, m, k),
        syntax::is_enum_value(x, n),
        syntax::is_enum_value(y, m),
    ensures
        enum_value_moved(x, y, k),
{
    syntax::lemma_enum_value(n);
    lemma_attrs(n, m, k);
    lemma_child(n, m, k, 0);
    if x.value is Some {
        lemma_child(n, m, k, 2);
    }
}

proof fn lemma_enum(x: Enum, y: Enum, n: Node, m: Node, k: nat)
    requires
        n.rule == Rule::enum_stmt,
        tree::well_formed(n),
        moved::node_moved(n, m, k),
        syntax::is_enum(x, n),
        syntax::is_enum(y, m),
    ensures
        enum_moved(x, y, k),
{
    syntax::lemma_enum(n);
    lemma_child(n, m, k, 0);
    lemma_child(n, m, k, 1);
    let a = syntax::child(n, 1);
    let b = syntax::child(m, 1);
    if a.rule == Rule::enum_block {
        let r = Rule::enum_value;
        assert(tree::well_formed(a));
        lemma_picked(a.inner, b.inner, k, r);
        assert forall|i: int| 0 <= i < x.values@.len() implies enum_value_moved(
            #[trigger] x.values@[i],
            y.values@[i],
            k,
        ) by {
            let j = fits::lemma_picked_from(a.inner, r, i);
            let p = syntax::picked(a.inner, r)[i];
            let q = syntax::picked(b.inner, r)[i];
            assert(tree::well_formed(a.inner[j]));
            assert(syntax::is_enum_value(x.values@[i], p));
            assert(syntax::is_enum_value(y.values@[i], q));
            assert(moved::node_moved(p, q, k));
            lemma_enum_value(x.values@[i], y.values@[i], p, q, k);
        }
    }
}

/// An optional ordinal moves along with its node.
proof fn lemma_ordinal(x: Option<Range>, y: Option<Range>, n: Node, m: Node, k: nat, i: int)
    requires
        moved::node_moved(n, m, k),
        0 <= tree::attrs(n.inner) + i < n.inner.len(),
        syntax::is_optional(x, n, i, Rule::ordinal_value),
        syntax::is_optional(y, m, i, Rule::ordinal_value),
    ensures
        optional_moved(x, y, k),
        syntax::after_ordinal(n, i) == syntax::after_ordinal(m, i),
{
    lemma_child(n, m, k, i);
}

proof fn lemma_struct_field(x: StructField, y: StructField, n: Node, m: Node, k: nat)
    requires
        n.rule == Rule::struct_field,
        tree::well_formed(n),
        moved::node_moved(n, m, k),
        syntax::is_struct_field(x, n),
        syntax::is_struct_field(y, m),
    ensures
        struct_field_moved(x, y, k),
{
    syntax::lemma_struct_field(n);
    lemma_child(n, m, k, 0);
    lemma_child(n, m, k, 1);
    let a = syntax::child(n, 0);
    let b = syntax::child(m, 0);
    assert(moved::node_moved(a.inner[0], b.inner[0], k));
    lemma_ordinal(x.ordinal, y.ordinal, n, m, k, 2);
    let j = syntax::after_ordinal(n, 2);
    lemma_child(n, m, k, j);
    let c = syntax::child(n, j);
    let d = syntax::child(m, j);
    if c.rule == Rule::default {
        assert(moved::node_moved(c.inner[1], d.inner[1], k));
    }
}

proof fn lemma_struct_member(x: StructBody, y: StructBody, n: Node, m: Node, k: nat)
    requires
        n.rule == Rule::struct_item,
        tree::well_formed(n),
        moved::node_moved(n, m, k),
        syntax::is_struct_member(x, n),
        syntax::is_struct_member(y, m),
    ensures
        struct_member_moved(x, y, k),
{
    syntax::lemma_struct_item(n);
    let a = n.inner[0];
    let b = m.inner[0];
    assert(tree::well_formed(a));
    assert(moved::node_moved(a, b, k));
    match (x, y) {
        (StructBody::Const(p), StructBody::Const(q)) => lemma_const(p, q, a, b, k),
        (StructBody::Enum(p), StructBody::Enum(q)) => lemma_enum(p, q, a, b, k),
        (StructBody::Field(p), StructBody::Field(q)) => lemma_struct_field(p, q, a, b, k),
        _ => {},
    }
}

proof fn lemma_struct(x: Struct, y: Struct, n: Node, m: Node, k: nat)
    requires
        n.rule == Rule::struct_stmt,
        tree::well_formed(n),
        moved::node_moved(n, m, k),
        syntax::is_struct(x, n),
        syntax::is_struct(y, m),
    ensures
        struct_moved(x, y, k),
{
    syntax::lemma_struct(n);
    lemma_child(n, m, k, 1);
    lemma_child(n, m, k, 2);
    let a = syntax::child(n, 2);
    let b = syntax::child(m, 2);
    if a.rule == Rule::struct_body {
        let r = Rule::struct_item;
        assert(tree::well_formed(a));
        lemma_picked(a.inner, b.inner, k, r);
        assert forall|i: int| 0 <= i < x.members@.len() implies struct_member_moved(
            #[trigger] x.members@[i],
            y.members@[i],
            k,
        ) by {
            let j = fits::lemma_picked_from(a.inner, r, i);
            let p = syntax::picked(a.inner, r)[i];
            let q = syntax::picked(b.inner, r)[i];
            assert(tree::well_formed(a.inner[j]));
            assert(syntax::is_struct_member(x.members@[i], p));
            assert(syntax::is_struct_member(y.members@[i], q));
            assert(moved::node_moved(p, q, k));
            lemma_struct_member(x.members@[i], y.members@[i], p, q, k);
        }
    }
}

proof fn lemma_union_field(x: UnionField, y: UnionField, n: Node, m: Node, k: nat)
    requires
        n.rule == Rule::union_field,
        tree::well_formed(n),
        moved::node_moved(n, m, k),
        syntax::is_union_field(x, n),
        syntax::is_union_field(y, m),
    ensures
        union_field_moved(x, y, k),
{
    syntax::lemma_union_field(n);
    lemma_child(n, m, k, 0);
    lemma_child(n, m, k, 1);
    let a = syntax::child(n, 0);
    let b = syntax::child(m, 0);
    assert(moved::node_moved(a.inner[0], b.inner[0], k));
    lemma_ordinal(x.ordinal, y.ordinal, n, m, k, 2);
}

proof fn lemma_union(x: Union, y: Union, n: Node, m: Node, k: nat)
    requires
        n.rule == Rule::union_stmt,
        tree::well_formed(n),
        moved::node_moved(n, m, k),
        syntax::is_union(x, n),
        syntax::is_union(y, m),
    ensures
        union_moved(x, y, k),
{
    let r = Rule::union_field;
    syntax::lemma_block(n, Rule::t_union, r);
    lemma_child(n, m, k, 1);
    lemma_picked(n.inner, m.inner, k, r);
    assert forall|i: int| 0 <= i < x.fields@.len() implies union_field_moved(
        #[trigger] x.fields@[i],
        y.fields@[i],
        k,
    ) by {
        let j = fits::lemma_picked_from(n.inner, r, i);
        let p = syntax::picked(n.inner, r)[i];
        let q = syntax::picked(m.inner, r)[i];
        assert(tree::well_formed(n.inner[j]));
        assert(syntax::is_union_field(x.fields@[i], p));
        assert(syntax::is_union_field(y.fields@[i], q));
        assert(moved::node_moved(p, q, k));
        lemma_union_field(x.fields@[i], y.fields@[i], p, q, k);
    }
}

proof fn lemma_parameter(x: Parameter, y: Parameter, n: Node, m: Node, k: nat)
    requires
        n.rule == Rule::parameter,
        tree::well_formed(n),
        moved::node_moved(n, m, k),
        syntax::is_parameter(x, n),
        syntax::is_parameter(y, m),
    ensures
        parameter_moved(x, y, k),
{
    syntax::lemma_parameter(n);
    let a = n.inner[0];
    let b = m.inner[0];
    assert(moved::node_moved(a, b, k));
    assert(moved::node_moved(a.inner[0], b.inner[0], k));
    assert(moved::node_moved(n.inner[1], m.inner[1], k));
    if n.inner.len() == 3 {
        assert(moved::node_moved(n.inner[2], m.inner[2], k));
    }
}

proof fn lemma_parameters(xs: Seq<Parameter>, ys: Seq<Parameter>, n: Node, m: Node, k: nat)
    requires
        tree::well_formed(n),
        moved::node_moved(n, m, k),
        syntax::are_parameters(xs, syntax::picked(n.inner, Rule::parameter)),
        syntax::are_parameters(ys, syntax::picked(m.inner, Rule::parameter)),
    ensures
        parameters_moved(xs, ys, k),
{
    let r = Rule::parameter;
    lemma_picked(n.inner, m.inner, k, r);
    assert forall|i: int| 0 <= i < xs.len() implies parameter_moved(
        #[trigger] xs[i],
        ys[i],
        k,
    ) by {
        let j = fits::lemma_picked_from(n.inner, r, i);
        let p = syntax::picked(n.inner, r)[i];
        let q = syntax::picked(m.inner, r)[i];
        assert(tree::well_formed(n.inner[j]));
        assert(syntax::is_parameter(xs[i], p));
        assert(syntax::is_parameter(ys[i], q));
        assert(moved::node_moved(p, q, k));
        lemma_parameter(xs[i], ys[i], p, q, k);
    }
}

proof fn lemma_response(x: Response, y: Response, n: Node, m: Node, k: nat)
    requires
        n.rule == Rule::response,
        tree::well_formed(n),
        moved::node_moved(n, m, k),
        syntax::is_response(x, n),
        syntax::is_response(y, m),
    ensures
        response_moved(x, y, k),
{
    syntax::lemma_response(n);
    let a = n.inner[1];
    let b = m.inner[1];
    assert(tree::well_formed(a));
    assert(moved::node_moved(a, b, k));
    lemma_parameters(x.params@, y.params@, a, b, k);
}

proof fn lemma_method(x: Method, y: Method, n: Node, m: Node, k: nat)
    requires
        n.rule == Rule::method_stmt,
        tree::well_formed(n),
        moved::node_moved(n, m, k),
        syntax::is_method(x, n),
        syntax::is_method(y, m),
    ensures
        method_moved(x, y, k),
{
    syntax::lemma_method(n);
    lemma_child(n, m, k, 0);
    lemma_ordinal(x.ordinal, y.ordinal, n, m, k, 1);
    let j = syntax::after_ordinal(n, 1);
    lemma_child(n, m, k, j);
    lemma_child(n, m, k, j + 1);
    let a = syntax::child(n, j);
    assert(tree::well_formed(a));
    lemma_parameters(x.params@, y.params@, a, syntax::child(m, j), k);
    if let (Some(p), Some(q)) = (x.response, y.response) {
        let c = syntax::child(n, j + 1);
        assert(tree::well_formed(c));
        lemma_response(p, q, c, syntax::child(m, j + 1), k);
    }
}

proof fn lemma_interface_member(
    x: InterfaceMember,
    y: InterfaceMember,
    n: Node,
    m: Node,
    k: nat,
)
    requires
        n.rule == Rule::interface_body,
        tree::well_formed(n),
        moved::node_moved(n, m, k),
        syntax::is_interface_member(x, n),
        syntax::is_interface_member(y, m),
    ensures
        interface_member_moved(x, y, k),
{
    syntax::lemma_interface_body(n);
    let a = n.inner[0];
    let b = m.inner[0];
    assert(tree::well_formed(a));
    assert(moved::node_moved(a, b, k));
    match (x, y) {
        (InterfaceMember::Const(p), InterfaceMember::Const(q)) => lemma_const(p, q, a, b, k),
        (InterfaceMember::Enum(p), InterfaceMember::Enum(q)) => lemma_enum(p, q, a, b, k),
        (InterfaceMember::Method(p), InterfaceMember::Method(q)) => lemma_method(p, q, a, b, k),
        _ => {},
    }
}

proof fn lemma_interface(x: Interface, y: Interface, n: Node, m: Node, k: nat)
    requires
        n.rule == Rule::interface,
        tree::well_formed(n),
        moved::node_moved(n, m, k),
        syntax::is_interface(x, n),
        syntax::is_interface(y, m),
    ensures
        interface_moved(x, y, k),
{
    let r = Rule::interface_body;
    syntax::lemma_block(n, Rule::t_interface, r);
    lemma_child(n, m, k, 1);
    lemma_picked(n.inner, m.inner, k, r);
    assert forall|i: int| 0 <= i < x.members@.len() implies interface_member_moved(
        #[trigger] x.members@[i],
        y.members@[i],
        k,
    ) by {
        let j = fits::lemma_picked_from(n.inner, r, i);
        let p = syntax::picked(n.inner, r)[i];
        let q = syntax::picked(m.inner, r)[i];
        assert(tree::well_formed(n.inner[j]));
        assert(syntax::is_interface_member(x.members@[i], p));
        assert(syntax::is_interface_member(y.members@[i], q));
        assert(moved::node_moved(p, q, k));
        lemma_interface_member(x.members@[i], y.members@[i], p, q, k);
    }
}

/// Where a node is moved, so is the statement that it says.
pub(crate) proof fn lemma_statement(x: Statement, y: Statement, n: Node, m: Node, k: nat)
    requires
        n.rule == Rule::statement,
        tree::well_formed(n),
        moved::node_moved(n, m, k),
        syntax::is_statement(x, n),
        syntax::is_statement(y, m),
    ensures
        statement_moved(x, y, k),
{
    syntax::lemma_statement(n);
    let a = n.inner[0];
    let b = m.inner[0];
    assert(tree::well_formed(a));
    assert(moved::node_moved(a, b, k));
    match (x, y) {
        (Statement::Module(_), Statement::Module(_)) => {
            syntax::lemma_module(a);
            lemma_child(a, b, k, 1);
        },
        (Statement::Import(_), Statement::Import(_)) => {
            syntax::lemma_import(a);
            lemma_child(a, b, k, 1);
        },
        (Statement::Interface(p), Statement::Interface(q)) => lemma_interface(p, q, a, b, k),
        (Statement::Struct(p), Statement::Struct(q)) => lemma_struct(p, q, a, b, k),
        (Statement::Union(p), Statement::Union(q)) => lemma_union(p, q, a, b, k),
        (Statement::Enum(p), Statement::Enum(q)) => lemma_enum(p, q, a, b, k),
        (Statement::Const(p), Statement::Const(q)) => lemma_const(p, q, a, b, k),
        _ => {},
    }
}

} // verus!
