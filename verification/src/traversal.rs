//! Walking through a syntax tree.
use vstd::prelude::*;

use crate::syntax::{
    Const, Enum, Import, Interface, InterfaceMember, Method, Module, MojomFile, Statement, Struct,
    StructBody, StructField, Union,
};

verus! {

/// A step of a walk through a syntax tree.
pub enum Traversal<'a> {
    Module(&'a Module),
    Import(&'a Import),
    EnterInterface(&'a Interface),
    LeaveInterface(&'a Interface),
    Method(&'a Method),
    EnterStruct(&'a Struct),
    LeaveStruct(&'a Struct),
    StructField(&'a StructField),
    Union(&'a Union),
    Enum(&'a Enum),
    Const(&'a Const),
}

/// The step at a member of an interface.
pub open spec fn interface_member_step<'a>(m: &'a InterfaceMember) -> Traversal<'a> {
    match m {
        InterfaceMember::Const(x) => Traversal::Const(x),
        InterfaceMember::Enum(x) => Traversal::Enum(x),
        InterfaceMember::Method(x) => Traversal::Method(x),
    }
}

/// The steps at the members of an interface.
pub open spec fn interface_member_steps<'a>(ms: Seq<InterfaceMember>) -> Seq<Traversal<'a>> {
    Seq::new(ms.len(), |i: int| interface_member_step(&ms[i]))
}

/// The step at a member of a struct.
pub open spec fn struct_member_step<'a>(m: &'a StructBody) -> Traversal<'a> {
    match m {
        StructBody::Const(x) => Traversal::Const(x),
        StructBody::Enum(x) => Traversal::Enum(x),
        StructBody::Field(x) => Traversal::StructField(x),
    }
}

/// The steps at the members of a struct.
pub open spec fn struct_member_steps<'a>(ms: Seq<StructBody>) -> Seq<Traversal<'a>> {
    Seq::new(ms.len(), |i: int| struct_member_step(&ms[i]))
}

/// The steps at a statement.
pub open spec fn statement_steps<'a>(s: &'a Statement) -> Seq<Traversal<'a>> {
    match s {
        Statement::Module(x) => seq![Traversal::Module(x)],
        Statement::Import(x) => seq![Traversal::Import(x)],
        Statement::Interface(x) => seq![Traversal::EnterInterface(x)] + interface_member_steps(
            x.members@,
        ) + seq![Traversal::LeaveInterface(x)],
        Statement::Struct(x) => seq![Traversal::EnterStruct(x)] + struct_member_steps(x.members@)
            + seq![Traversal::LeaveStruct(x)],
        Statement::Union(x) => seq![Traversal::Union(x)],
        Statement::Enum(x) => seq![Traversal::Enum(x)],
        Statement::Const(x) => seq![Traversal::Const(x)],
    }
}

/// The steps at `stmts`, one statement after the other.
pub open spec fn steps<'a>(stmts: Seq<Statement>) -> Seq<Traversal<'a>>
    decreases stmts.len(),
{
    if stmts.len() == 0 {
        Seq::empty()
    } else {
        steps(stmts.drop_last()) + statement_steps(&stmts.last())
    }
}

/// Adds the steps at an interface.
fn walk_interface<'a>(x: &'a Interface, out: &mut Vec<Traversal<'a>>)
    ensures
        final(out)@ == old(out)@ + (seq![Traversal::EnterInterface(x)] + interface_member_steps(
            x.members@,
        ) + seq![Traversal::LeaveInterface(x)]),
{
    let ghost before = out@;
    out.push(Traversal::EnterInterface(x));
    let mut i: usize = 0;
    while i < x.members.len()
        invariant
            i <= x.members@.len(),
            out@ =~= before + seq![Traversal::EnterInterface(x)] + interface_member_steps(
                x.members@,
            ).take(i as int),
        decreases x.members@.len() - i,
    {
        out.push(
            match &x.members[i] {
                InterfaceMember::Const(y) => Traversal::Const(y),
                InterfaceMember::Enum(y) => Traversal::Enum(y),
                InterfaceMember::Method(y) => Traversal::Method(y),
            },
        );
        i = i + 1;
    }
    out.push(Traversal::LeaveInterface(x));
    proof {
        assert(out@ =~= before + (seq![Traversal::EnterInterface(x)] + interface_member_steps(
            x.members@,
        ) + seq![Traversal::LeaveInterface(x)]));
    }
}

/// Adds the steps at a struct.
fn walk_struct<'a>(x: &'a Struct, out: &mut Vec<Traversal<'a>>)
    ensures
        final(out)@ == old(out)@ + (seq![Traversal::EnterStruct(x)] + struct_member_steps(
            x.members@,
        ) + seq![Traversal::LeaveStruct(x)]),
{
    let ghost before = out@;
    out.push(Traversal::EnterStruct(x));
    let mut i: usize = 0;
    while i < x.members.len()
        invariant
            i <= x.members@.len(),
            out@ =~= before + seq![Traversal::EnterStruct(x)] + struct_member_steps(
                x.members@,
            ).take(i as int),
        decreases x.members@.len() - i,
    {
        out.push(
            match &x.members[i] {
                StructBody::Const(y) => Traversal::Const(y),
                StructBody::Enum(y) => Traversal::Enum(y),
                StructBody::Field(y) => Traversal::StructField(y),
            },
        );
        i = i + 1;
    }
    out.push(Traversal::LeaveStruct(x));
    proof {
        assert(out@ =~= before + (seq![Traversal::EnterStruct(x)] + struct_member_steps(x.members@)
            + seq![Traversal::LeaveStruct(x)]));
    }
}

/// Walks through a syntax tree. An interface and a struct are entered before their members
/// and left after them.
pub fn preorder<'a>(mojom: &'a MojomFile) -> (r: Vec<Traversal<'a>>)
    ensures
        r@ == steps::<'a>(mojom.stmts@),
{
    let mut out: Vec<Traversal<'a>> = Vec::new();
    let mut i: usize = 0;
    while i < mojom.stmts.len()
        invariant
            i <= mojom.stmts@.len(),
            out@ =~= steps::<'a>(mojom.stmts@.take(i as int)),
        decreases mojom.stmts@.len() - i,
    {
        proof {
            assert(mojom.stmts@.take(i + 1).drop_last() =~= mojom.stmts@.take(i as int));
        }
        match &mojom.stmts[i] {
            Statement::Module(x) => out.push(Traversal::Module(x)),
            Statement::Import(x) => out.push(Traversal::Import(x)),
            Statement::Interface(x) => walk_interface(x, &mut out),
            Statement::Struct(x) => walk_struct(x, &mut out),
            Statement::Union(x) => out.push(Traversal::Union(x)),
            Statement::Enum(x) => out.push(Traversal::Enum(x)),
            Statement::Const(x) => out.push(Traversal::Const(x)),
        }
        i = i + 1;
    }
    proof {
        assert(mojom.stmts@.take(i as int) =~= mojom.stmts@);
    }
    out
}

} // verus!
