//! The symbols of a document.
use vstd::prelude::*;

use crate::lsp;

verus! {

/// An interface.
#[derive(Debug, PartialEq, Eq)]
pub struct InterfaceSymbol {
    pub name: String,
    pub name_range: lsp::Range,
    pub range: lsp::Range,
}

/// A method of an interface.
#[derive(Debug, PartialEq, Eq)]
pub struct MethodSymbol {
    pub name: String,
    pub name_range: lsp::Range,
    pub interface_name: String,
    pub range: lsp::Range,
}

/// A struct.
#[derive(Debug, PartialEq, Eq)]
pub struct StructSymbol {
    pub name: String,
    pub name_range: lsp::Range,
    pub range: lsp::Range,
}

/// A union.
#[derive(Debug, PartialEq, Eq)]
pub struct UnionSymbol {
    pub name: String,
    pub name_range: lsp::Range,
    pub range: lsp::Range,
}

/// An enum.
#[derive(Debug, PartialEq, Eq)]
pub struct EnumSymbol {
    pub name: String,
    pub name_range: lsp::Range,
    pub range: lsp::Range,
}

/// A constant.
#[derive(Debug, PartialEq, Eq)]
pub struct ConstSymbol {
    pub name: String,
    pub name_range: lsp::Range,
    pub range: lsp::Range,
}

/// A symbol of a document.
#[derive(Debug, PartialEq, Eq)]
pub enum DocumentSymbol {
    Method(MethodSymbol),
    Interface(InterfaceSymbol),
    Struct(StructSymbol),
    Union(UnionSymbol),
    Enum(EnumSymbol),
    Const(ConstSymbol),
}

/// What a symbol stands for. A method knows the name of its interface.
pub enum Class {
    Method(Seq<char>),
    Interface,
    Struct,
    Union,
    Enum,
    Const,
}

/// What a symbol says.
#[verifier::ext_equal]
pub struct SymbolView {
    pub class: Class,
    pub name: Seq<char>,
    pub name_range: lsp::Range,
    pub range: lsp::Range,
}

impl View for DocumentSymbol {
    type V = SymbolView;

    open spec fn view(&self) -> SymbolView {
        match self {
            DocumentSymbol::Method(s) => SymbolView {
                class: Class::Method(s.interface_name@),
                name: s.name@,
                name_range: s.name_range,
                range: s.range,
            },
            DocumentSymbol::Interface(s) => SymbolView {
                class: Class::Interface,
                name: s.name@,
                name_range: s.name_range,
                range: s.range,
            },
            DocumentSymbol::Struct(s) => SymbolView {
                class: Class::Struct,
                name: s.name@,
                name_range: s.name_range,
                range: s.range,
            },
            DocumentSymbol::Union(s) => SymbolView {
                class: Class::Union,
                name: s.name@,
                name_range: s.name_range,
                range: s.range,
            },
            DocumentSymbol::Enum(s) => SymbolView {
                class: Class::Enum,
                name: s.name@,
                name_range: s.name_range,
                range: s.range,
            },
            DocumentSymbol::Const(s) => SymbolView {
                class: Class::Const,
                name: s.name@,
                name_range: s.name_range,
                range: s.range,
            },
        }
    }
}

/// What the symbols in `ss` say.
pub open spec fn document_symbol_views(ss: Seq<DocumentSymbol>) -> Seq<SymbolView> {
    Seq::new(ss.len(), |i: int| ss[i]@)
}

/// The kind that the protocol has for a symbol. A union is shown as a struct.
pub open spec fn kind_of(class: Class) -> lsp::SymbolKind {
    match class {
        Class::Method(_) => lsp::SymbolKind::Method,
        Class::Interface => lsp::SymbolKind::Interface,
        Class::Struct => lsp::SymbolKind::Struct,
        Class::Union => lsp::SymbolKind::Struct,
        Class::Enum => lsp::SymbolKind::Enum,
        Class::Const => lsp::SymbolKind::Constant,
    }
}

/// The symbol of the proxy class that the C++ bindings have for an interface, or of a method
/// of that class. Other symbols have no proxy and stand for themselves.
pub open spec fn proxy_of(s: SymbolView) -> SymbolView {
    match s.class {
        Class::Interface => SymbolView { name: s.name + "Proxy"@, ..s },
        Class::Method(interface_name) => SymbolView {
            class: Class::Method(interface_name + "Proxy"@),
            ..s
        },
        _ => s,
    }
}

impl DocumentSymbol {
    /// The name.
    pub fn name(&self) -> (r: &str)
        ensures
            r@ == self@.name,
    {
        match self {
            DocumentSymbol::Method(s) => s.name.as_str(),
            DocumentSymbol::Interface(s) => s.name.as_str(),
            DocumentSymbol::Struct(s) => s.name.as_str(),
            DocumentSymbol::Union(s) => s.name.as_str(),
            DocumentSymbol::Enum(s) => s.name.as_str(),
            DocumentSymbol::Const(s) => s.name.as_str(),
        }
    }

    /// Where the name stands.
    pub fn name_range(&self) -> (r: &lsp::Range)
        ensures
            *r == self@.name_range,
    {
        match self {
            DocumentSymbol::Method(s) => &s.name_range,
            DocumentSymbol::Interface(s) => &s.name_range,
            DocumentSymbol::Struct(s) => &s.name_range,
            DocumentSymbol::Union(s) => &s.name_range,
            DocumentSymbol::Enum(s) => &s.name_range,
            DocumentSymbol::Const(s) => &s.name_range,
        }
    }

    /// Where the whole definition stands.
    pub fn range(&self) -> (r: &lsp::Range)
        ensures
            *r == self@.range,
    {
        match self {
            DocumentSymbol::Method(s) => &s.range,
            DocumentSymbol::Interface(s) => &s.range,
            DocumentSymbol::Struct(s) => &s.range,
            DocumentSymbol::Union(s) => &s.range,
            DocumentSymbol::Enum(s) => &s.range,
            DocumentSymbol::Const(s) => &s.range,
        }
    }

    /// The kind that the protocol has for the symbol.
    pub fn kind(&self) -> (r: lsp::SymbolKind)
        ensures
            r == kind_of(self@.class),
    {
        match self {
            DocumentSymbol::Method(_) => lsp::SymbolKind::Method,
            DocumentSymbol::Interface(_) => lsp::SymbolKind::Interface,
            DocumentSymbol::Struct(_) => lsp::SymbolKind::Struct,
            DocumentSymbol::Union(_) => lsp::SymbolKind::Struct,
            DocumentSymbol::Enum(_) => lsp::SymbolKind::Enum,
            DocumentSymbol::Const(_) => lsp::SymbolKind::Constant,
        }
    }

    /// The symbol of the proxy class in the C++ bindings.
    pub fn to_proxy_symbol(self) -> (r: DocumentSymbol)
        ensures
            r@ == proxy_of(self@),
    {
        match self {
            DocumentSymbol::Interface(s) => DocumentSymbol::Interface(
                InterfaceSymbol {
                    name: s.name.concat("Proxy"),
                    name_range: s.name_range,
                    range: s.range,
                },
            ),
            DocumentSymbol::Method(s) => DocumentSymbol::Method(
                MethodSymbol {
                    name: s.name,
                    name_range: s.name_range,
                    interface_name: s.interface_name.concat("Proxy"),
                    range: s.range,
                },
            ),
            other => other,
        }
    }

    /// The symbol as the protocol shows it, in the document at `uri`.
    pub fn lsp_symbol(&self, uri: &str) -> (r: lsp::SymbolInformation)
        ensures
            r@ == lsp_symbol_of(self@, uri@),
    {
        lsp::SymbolInformation {
            name: self.name().to_owned(),
            kind: self.kind(),
            location: lsp::Location { uri: uri.to_owned(), range: *self.range() },
        }
    }
}

/// How the protocol shows the symbol `s` of the document at `uri`.
pub open spec fn lsp_symbol_of(s: SymbolView, uri: Seq<char>) -> lsp::SymbolInformationView {
    lsp::SymbolInformationView {
        name: s.name,
        kind: kind_of(s.class),
        location: lsp::LocationView { uri, range: s.range },
    }
}

/// Taking the proxy symbol changes the name of an interface, or the name of the interface
/// of a method, and nothing else.
pub proof fn proxy_keeps_the_place(s: SymbolView)
    ensures
        proxy_of(s).name_range == s.name_range,
        proxy_of(s).range == s.range,
        kind_of(proxy_of(s).class) == kind_of(s.class),
        !(s.class is Interface) ==> proxy_of(s).name == s.name,
        !(s.class is Interface) && !(s.class is Method) ==> proxy_of(s) == s,
{
}

} // verus!
