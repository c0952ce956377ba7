//! The syntax tree of a Mojom file.
use vstd::prelude::*;

use crate::fits;
use crate::grammar::{keyword, label, many, opt, or2, rule, seq2, seq3, seq5, Expr, Rule};
use crate::lsp;
use crate::parser;
use crate::parser::{consume_token, MojomParser, Pair, Pairs, ParseError, Span};
use crate::peg::Node;
use crate::text;
use crate::tree;

verus! {

/// A part of a text, from the byte `start` up to the byte `end`.
#[derive(Debug, Clone, Copy, PartialEq, Eq, Structural)]
pub struct Range {
    pub start: usize,
    pub end: usize,
}

impl Range {
    /// Whether the byte at `offset` is in the range.
    pub fn contains(&self, offset: usize) -> (r: bool)
        ensures
            r == (self.start <= offset < self.end),
    {
        self.start <= offset && self.end > offset
    }

    /// Whether this is the range of `n`.
    pub open spec fn is_of(self, n: Node) -> bool {
        self.start == n.start && self.end == n.end
    }
}

impl From<Span> for Range {
    fn from(span: Span) -> (r: Range) {
        Range { start: span.start, end: span.end }
    }
}

impl vstd::std_specs::convert::FromSpecImpl<Span> for Range {
    open spec fn obeys_from_spec() -> bool {
        true
    }

    open spec fn from_spec(span: Span) -> Range {
        Range { start: span.start, end: span.end }
    }
}

/// The child of `n` with the number `i`, after the attribute list if there is one.
pub open spec fn child(n: Node, i: int) -> Node {
    n.inner[tree::attrs(n.inner) + i]
}

/// The nodes of the rule `r` among `ns`, in their order.
pub open spec fn picked(ns: Seq<Node>, r: Rule) -> Seq<Node>
    decreases ns.len(),
{
    if ns.len() == 0 {
        Seq::empty()
    } else if ns[0].rule == r {
        seq![ns[0]] + picked(ns.skip(1), r)
    } else {
        picked(ns.skip(1), r)
    }
}

/// Skips the attribute list if there is one.
pub fn skip_attribute_list(pairs: &mut Pairs)
    requires
        old(pairs)@.len() > 0,
    ensures
        final(pairs)@ == old(pairs)@.skip(tree::attrs(old(pairs)@)),
{
    let skip = match pairs.peek() {
        Some(pair) => match pair.as_rule() {
            Rule::attribute_section => true,
            _ => false,
        },
        None => false,
    };
    if skip {
        pairs.next();
    } else {
        proof {
            assert(pairs@.skip(0) =~= pairs@);
        }
    }
}

/// Takes the semicolon that comes next.
pub fn consume_semicolon(pairs: &mut Pairs)
    requires
        old(pairs)@.len() > 0,
        old(pairs)@[0].rule == Rule::t_semicolon,
    ensures
        final(pairs)@ == old(pairs)@.skip(1),
{
    pairs.next();
}

/// Takes the next pair for its range.
pub fn consume_as_range(pairs: &mut Pairs) -> (r: Range)
    requires
        old(pairs)@.len() > 0,
    ensures
        r.is_of(old(pairs)@[0]),
        final(pairs)@ == old(pairs)@.skip(1),
{
    let pair = pairs.next().unwrap();
    Range::from(pair.as_span())
}

/// Takes the next pair, a type, for the range of its name, which leaves out the mark of
/// a nullable type.
pub fn consume_as_type(pairs: &mut Pairs) -> (r: Range)
    requires
        old(pairs)@.len() > 0,
        old(pairs)@[0].inner.len() > 0,
    ensures
        r.is_of(old(pairs)@[0].inner[0]),
        final(pairs)@ == old(pairs)@.skip(1),
{
    let pair = pairs.next().unwrap();
    let mut inner = pair.into_inner();
    let name = inner.next().unwrap();
    Range::from(name.as_span())
}

/// A module statement.
#[derive(Debug, Clone, Copy, PartialEq, Eq, Structural)]
pub struct Module {
    pub range: Range,
    pub name: Range,
}

/// Whether `m` is what the node `n` says.
pub open spec fn is_module(m: Module, n: Node) -> bool {
    &&& m.range.is_of(n)
    &&& m.name.is_of(child(n, 1))
}

pub(crate) proof fn lemma_module(n: Node)
    requires
        n.rule == Rule::module_stmt,
        tree::well_formed(n),
    ensures
        n.inner.len() == tree::attrs(n.inner) + 3,
        child(n, 0).rule == Rule::t_module,
        child(n, 1).rule == Rule::identifier,
        child(n, 2).rule == Rule::t_semicolon,
{
    let ns = n.inner;
    let k = tree::attrs(ns);
    let e1 = rule(Rule::t_semicolon);
    let e2 = seq2(rule(Rule::identifier), e1);
    tree::lemma_attrs(Rule::t_module, e2, ns);
    tree::lemma_next(Rule::identifier, e1, ns, k + 1);
    tree::lemma_last(Rule::t_semicolon, ns, k + 2);
}

/// Builds a module statement.
pub fn into_module(pair: Pair) -> (m: Module)
    requires
        pair@.rule == Rule::module_stmt,
        tree::well_formed(pair@),
    ensures
        is_module(m, pair@),
{
    proof {
        lemma_module(pair@);
    }
    let range = Range::from(pair.as_span());
    let mut pairs = pair.into_inner();
    skip_attribute_list(&mut pairs);
    consume_token(Rule::t_module, &mut pairs);
    let name = consume_as_range(&mut pairs);
    consume_semicolon(&mut pairs);
    Module { range, name }
}

/// An import statement. The range of the path holds its quotes.
#[derive(Debug, PartialEq)]
pub struct Import {
    pub range: Range,
    pub path: Range,
}

/// Whether `m` is what the node `n` says.
pub open spec fn is_import(m: Import, n: Node) -> bool {
    &&& m.range.is_of(n)
    &&& m.path.is_of(child(n, 1))
}

pub(crate) proof fn lemma_import(n: Node)
    requires
        n.rule == Rule::import_stmt,
        tree::well_formed(n),
    ensures
        n.inner.len() == tree::attrs(n.inner) + 3,
        child(n, 0).rule == Rule::t_import,
        child(n, 1).rule == Rule::string_literal,
        child(n, 2).rule == Rule::t_semicolon,
{
    let ns = n.inner;
    let k = tree::attrs(ns);
    let e1 = rule(Rule::t_semicolon);
    let e2 = seq2(rule(Rule::string_literal), e1);
    tree::lemma_attrs(Rule::t_import, e2, ns);
    tree::lemma_next(Rule::string_literal, e1, ns, k + 1);
    tree::lemma_last(Rule::t_semicolon, ns, k + 2);
}

/// Builds an import statement.
pub fn into_import(pair: Pair) -> (m: Import)
    requires
        pair@.rule == Rule::import_stmt,
        tree::well_formed(pair@),
    ensures
        is_import(m, pair@),
{
    proof {
        lemma_import(pair@);
    }
    let range = Range::from(pair.as_span());
    let mut pairs = pair.into_inner();
    skip_attribute_list(&mut pairs);
    consume_token(Rule::t_import, &mut pairs);
    let path = consume_as_range(&mut pairs);
    consume_semicolon(&mut pairs);
    Import { range, path }
}

proof fn lemma_type_spec(n: Node)
    requires
        n.rule == Rule::type_spec,
        tree::well_formed(n),
    ensures
        n.inner.len() > 0,
        n.inner[0].rule == Rule::typename,
{
    tree::lemma_front_rule(Rule::typename, opt(rule(Rule::t_nullable)), n.inner);
}

/// A constant.
#[derive(Debug, PartialEq)]
pub struct Const {
    pub range: Range,
    pub typ: Range,
    pub name: Range,
    pub value: Range,
}

/// Whether `m` is what the node `n` says.
pub open spec fn is_const(m: Const, n: Node) -> bool {
    &&& m.range.is_of(n)
    &&& m.typ.is_of(child(n, 1).inner[0])
    &&& m.name.is_of(child(n, 2))
    &&& m.value.is_of(child(n, 4))
}

pub(crate) proof fn lemma_const(n: Node)
    requires
        n.rule == Rule::const_stmt,
        tree::well_formed(n),
    ensures
        n.inner.len() == tree::attrs(n.inner) + 6,
        child(n, 0).rule == Rule::t_const,
        child(n, 1).rule == Rule::type_spec,
        child(n, 1).inner.len() > 0,
        child(n, 2).rule == Rule::name,
        child(n, 3).rule == Rule::t_equal,
        child(n, 4).rule == Rule::constant,
        child(n, 5).rule == Rule::t_semicolon,
{
    let ns = n.inner;
    let k = tree::attrs(ns);
    let e1 = rule(Rule::t_semicolon);
    let e2 = seq2(rule(Rule::constant), e1);
    let e3 = seq2(rule(Rule::t_equal), e2);
    let e4 = seq2(rule(Rule::name), e3);
    let e5 = seq2(rule(Rule::type_spec), e4);
    tree::lemma_attrs(Rule::t_const, e5, ns);
    tree::lemma_next(Rule::type_spec, e4, ns, k + 1);
    tree::lemma_next(Rule::name, e3, ns, k + 2);
    tree::lemma_next(Rule::t_equal, e2, ns, k + 3);
    tree::lemma_next(Rule::constant, e1, ns, k + 4);
    tree::lemma_last(Rule::t_semicolon, ns, k + 5);
    lemma_type_spec(ns[k + 1]);
}

/// Builds a constant.
pub fn into_const(pair: Pair) -> (m: Const)
    requires
        pair@.rule == Rule::const_stmt,
        tree::well_formed(pair@),
    ensures
        is_const(m, pair@),
{
    proof {
        lemma_const(pair@);
    }
    let range = Range::from(pair.as_span());
    let mut pairs = pair.into_inner();
    skip_attribute_list(&mut pairs);
    consume_token(Rule::t_const, &mut pairs);
    let typ = consume_as_type(&mut pairs);
    let name = consume_as_range(&mut pairs);
    consume_token(Rule::t_equal, &mut pairs);
    let value = consume_as_range(&mut pairs);
    consume_semicolon(&mut pairs);
    Const { range, typ, name, value }
}

/// A value of an enum.
#[derive(Debug, PartialEq)]
pub struct EnumValue {
    pub range: Range,
    pub name: Range,
    pub value: Option<Range>,
}

/// Whether `m` is what the node `n` says.
pub open spec fn is_enum_value(m: EnumValue, n: Node) -> bool {
    &&& m.range.is_of(n)
    &&& m.name.is_of(child(n, 0))
    &&& match m.value {
        Some(value) => n.inner.len() == tree::attrs(n.inner) + 3 && value.is_of(child(n, 2)),
        None => n.inner.len() == tree::attrs(n.inner) + 1,
    }
}

pub(crate) proof fn lemma_enum_value(n: Node)
    requires
        n.rule == Rule::enum_value,
        tree::well_formed(n),
    ensures
        child(n, 0).rule == Rule::name,
        n.inner.len() == tree::attrs(n.inner) + 1 || {
            &&& n.inner.len() == tree::attrs(n.inner) + 3
            &&& child(n, 1).rule == Rule::t_equal
        },
{
    let ns = n.inner;
    let k = tree::attrs(ns);
    let value = or2(rule(Rule::integer), rule(Rule::identifier));
    let e1 = seq2(rule(Rule::t_equal), value);
    tree::lemma_attrs(Rule::name, opt(e1), ns);
    if ns.len() != k + 1 {
        assert(tree::yields(e1, ns.skip(k + 1)));
        tree::lemma_next(Rule::t_equal, value, ns, k + 1);
        let rest = ns.skip(k + 2);
        assert(tree::yields(rule(Rule::integer), rest) || tree::yields(rule(Rule::identifier), rest));
        assert(rest.len() == 1);
    }
}

/// Builds a value of an enum.
pub fn into_enum_value(pair: Pair) -> (m: EnumValue)
    requires
        pair@.rule == Rule::enum_value,
        tree::well_formed(pair@),
    ensures
        is_enum_value(m, pair@),
{
    proof {
        lemma_enum_value(pair@);
    }
    let range = Range::from(pair.as_span());
    let mut pairs = pair.into_inner();
    skip_attribute_list(&mut pairs);
    let name = consume_as_range(&mut pairs);
    // What follows, if anything, is the equals sign.
    pairs.next();
    let value = match pairs.next() {
        Some(item) => Some(Range::from(item.as_span())),
        None => None,
    };
    EnumValue { range, name, value }
}

/// What `picked` takes from the nodes from `p` on.
pub(crate) proof fn lemma_picked_step(ns: Seq<Node>, r: Rule, p: int)
    requires
        0 <= p < ns.len(),
    ensures
        ns[p].rule == r ==> picked(ns.skip(p), r) == seq![ns[p]] + picked(ns.skip(p + 1), r),
        ns[p].rule != r ==> picked(ns.skip(p), r) == picked(ns.skip(p + 1), r),
{
    assert(ns.skip(p).skip(1) =~= ns.skip(p + 1));
}

/// Where all nodes of a rule stand in a row, `picked` takes that row.
proof fn lemma_picked_row(ns: Seq<Node>, r: Rule, i: int, j: int, p: int)
    requires
        0 <= i <= j <= ns.len(),
        0 <= p <= ns.len(),
        forall|q: int| 0 <= q < ns.len() ==> ((#[trigger] ns[q]).rule == r <==> i <= q < j),
    ensures
        picked(ns.skip(p), r) =~= ns.subrange(
            if p < i {
                i
            } else if p < j {
                p
            } else {
                j
            },
            j,
        ),
    decreases ns.len() - p,
{
    if p < ns.len() {
        lemma_picked_step(ns, r, p);
        lemma_picked_row(ns, r, i, j, p + 1);
    }
}

/// Where the nodes of a rule stand in a row, that row is what is picked.
proof fn lemma_picked(ns: Seq<Node>, r: Rule, i: int, j: int)
    requires
        0 <= i <= j <= ns.len(),
        forall|q: int| 0 <= q < ns.len() ==> ((#[trigger] ns[q]).rule == r <==> i <= q < j),
    ensures
        picked(ns, r) == ns.subrange(i, j),
{
    lemma_picked_row(ns, r, i, j, 0);
    assert(ns.skip(0) =~= ns);
}

/// An enum.
#[derive(Debug, PartialEq)]
pub struct Enum {
    pub range: Range,
    pub name: Range,
    pub values: Vec<EnumValue>,
}

/// Whether `ms` are what the nodes `ns` say, one by one.
pub open spec fn are_enum_values(ms: Seq<EnumValue>, ns: Seq<Node>) -> bool {
    &&& ms.len() == ns.len()
    &&& forall|i: int| 0 <= i < ms.len() ==> is_enum_value(#[trigger] ms[i], ns[i])
}

/// The nodes of the values of the enum `n`, none where it has no block.
pub open spec fn enum_value_nodes(n: Node) -> Seq<Node> {
    if child(n, 1).rule == Rule::enum_block {
        picked(child(n, 1).inner, Rule::enum_value)
    } else {
        Seq::empty()
    }
}

/// Whether `m` is what the node `n` says.
pub open spec fn is_enum(m: Enum, n: Node) -> bool {
    &&& m.range.is_of(n)
    &&& m.name.is_of(child(n, 0))
    &&& are_enum_values(m.values@, enum_value_nodes(n))
}

pub(crate) proof fn lemma_enum(n: Node)
    requires
        n.rule == Rule::enum_stmt,
        tree::well_formed(n),
    ensures
        child(n, 0).rule == Rule::name,
        ({
            &&& n.inner.len() == tree::attrs(n.inner) + 2
            &&& child(n, 1).rule == Rule::t_semicolon
        }) || ({
            &&& n.inner.len() == tree::attrs(n.inner) + 3
            &&& child(n, 1).rule == Rule::enum_block
            &&& child(n, 2).rule == Rule::t_semicolon
        }),
{
    let ns = n.inner;
    let k = tree::attrs(ns);
    let attr = Rule::attribute_section;
    let semi = rule(Rule::t_semicolon);
    let e1 = seq2(opt(rule(Rule::enum_block)), semi);
    let e2 = seq2(rule(Rule::name), e1);
    let e3 = seq2(keyword("enum"), e2);
    tree::lemma_front_opt(rule(attr), e3, ns);
    if tree::yields(seq2(rule(attr), e3), ns) {
        tree::lemma_front_rule(attr, e3, ns);
        tree::lemma_front_plain(keyword("enum"), e2, ns.skip(1));
        tree::lemma_next(Rule::name, e1, ns, 1);
    } else {
        tree::lemma_front_plain(keyword("enum"), e2, ns);
        tree::lemma_front_rule(Rule::name, e1, ns);
    }
    tree::lemma_front_opt(rule(Rule::enum_block), semi, ns.skip(k + 1));
    if tree::yields(semi, ns.skip(k + 1)) {
        tree::lemma_last(Rule::t_semicolon, ns, k + 1);
    } else {
        tree::lemma_next(Rule::enum_block, semi, ns, k + 1);
        tree::lemma_last(Rule::t_semicolon, ns, k + 2);
    }
}

/// Whether `ns` starts with the rule `a`, ends with the rule `b` and holds only items of
/// the rule `x` and commas in between.
spec fn is_list(ns: Seq<Node>, a: Rule, x: Rule, b: Rule) -> bool {
    &&& ns.len() >= 2
    &&& ns[0].rule == a
    &&& ns.last().rule == b
    &&& forall|i: int|
        1 <= i < ns.len() - 1 ==> (#[trigger] ns[i]).rule == x || ns[i].rule == Rule::t_comma
}

proof fn lemma_enum_block(n: Node)
    requires
        n.rule == Rule::enum_block,
        tree::well_formed(n),
    ensures
        is_list(n.inner, Rule::t_lbrace, Rule::enum_value, Rule::t_rbrace),
{
    let item = rule(Rule::enum_value);
    let comma = rule(Rule::t_comma);
    let x = opt(seq3(item, many(seq2(comma, item)), opt(comma)));
    tree::lemma_between(Rule::t_lbrace, x, Rule::t_rbrace, n.inner);
    reveal_with_fuel(tree::occurs, 6);
}

/// Builds the values in the block of an enum.
fn into_enum_values(block: Pair) -> (values: Vec<EnumValue>)
    requires
        block@.rule == Rule::enum_block,
        tree::well_formed(block@),
    ensures
        are_enum_values(values@, picked(block@.inner, Rule::enum_value)),
{
    let ghost ns = block@.inner;
    let ghost mut p: int = 1;
    let ghost mut done: Seq<Node> = Seq::empty();
    proof {
        lemma_enum_block(block@);
        lemma_picked_step(ns, Rule::enum_value, 0);
        assert(ns.skip(0) =~= ns);
    }
    let mut pairs = block.into_inner();
    consume_token(Rule::t_lbrace, &mut pairs);
    let mut values: Vec<EnumValue> = Vec::new();
    loop
        invariant
            ns == block@.inner,
            is_list(ns, Rule::t_lbrace, Rule::enum_value, Rule::t_rbrace),
            tree::all_well_formed(ns),
            1 <= p < ns.len(),
            pairs@ == ns.skip(p),
            are_enum_values(values@, done),
            done + picked(ns.skip(p), Rule::enum_value) =~= picked(ns, Rule::enum_value),
        decreases ns.len() - p,
    {
        proof {
            lemma_picked_step(ns, Rule::enum_value, p);
        }
        let item = pairs.next().unwrap();
        match item.as_rule() {
            Rule::enum_value => {
                values.push(into_enum_value(item));
                proof {
                    done = done.push(ns[p]);
                }
            },
            Rule::t_comma => {},
            _ => {
                proof {
                    assert(ns.skip(p + 1).len() == 0);
                }
                return values;
            },
        }
        proof {
            p = p + 1;
        }
    }
}

/// Builds an enum.
pub fn into_enum(pair: Pair) -> (m: Enum)
    requires
        pair@.rule == Rule::enum_stmt,
        tree::well_formed(pair@),
    ensures
        is_enum(m, pair@),
{
    proof {
        lemma_enum(pair@);
    }
    let range = Range::from(pair.as_span());
    let mut pairs = pair.into_inner();
    skip_attribute_list(&mut pairs);
    let name = consume_as_range(&mut pairs);
    let item = pairs.next().unwrap();
    let values = match item.as_rule() {
        Rule::enum_block => {
            consume_semicolon(&mut pairs);
            into_enum_values(item)
        },
        _ => Vec::new(),
    };
    Enum { range, name, values }
}

/// A field of a struct.
#[derive(Debug, PartialEq)]
pub struct StructField {
    pub range: Range,
    pub typ: Range,
    pub name: Range,
    pub ordinal: Option<Range>,
    pub default: Option<Range>,
}

/// Whether `m` is the range of the child of `n` with the number `i`, where that is one of
/// the rule `r`, and nothing where it is not.
pub open spec fn is_optional(m: Option<Range>, n: Node, i: int, r: Rule) -> bool {
    match m {
        Some(range) => child(n, i).rule == r && range.is_of(child(n, i)),
        None => child(n, i).rule != r,
    }
}

/// The number of the child of `n` after an optional ordinal at `i`.
pub open spec fn after_ordinal(n: Node, i: int) -> int {
    if child(n, i).rule == Rule::ordinal_value {
        i + 1
    } else {
        i
    }
}

/// Whether `m` is what the node `n` says.
pub open spec fn is_struct_field(m: StructField, n: Node) -> bool {
    let d = child(n, after_ordinal(n, 2));
    &&& m.range.is_of(n)
    &&& m.typ.is_of(child(n, 0).inner[0])
    &&& m.name.is_of(child(n, 1))
    &&& is_optional(m.ordinal, n, 2, Rule::ordinal_value)
    &&& match m.default {
        Some(value) => d.rule == Rule::default && value.is_of(d.inner[1]),
        None => d.rule != Rule::default,
    }
}

/// What follows the ordinal of `n`, which is optional at `i`.
proof fn lemma_ordinal(e: Expr, n: Node, i: int)
    requires
        0 <= i <= n.inner.len() - tree::attrs(n.inner),
        tree::yields(
            seq2(opt(rule(Rule::ordinal_value)), e),
            n.inner.skip(tree::attrs(n.inner) + i),
        ),
        forall|ns: Seq<Node>|
            tree::yields(e, ns) ==> ns.len() > 0 && ns[0].rule != Rule::ordinal_value,
    ensures
        tree::attrs(n.inner) + after_ordinal(n, i) < n.inner.len(),
        tree::yields(e, n.inner.skip(tree::attrs(n.inner) + after_ordinal(n, i))),
{
    let ns = n.inner;
    let k = tree::attrs(ns);
    tree::lemma_front_opt(rule(Rule::ordinal_value), e, ns.skip(k + i));
    if tree::yields(e, ns.skip(k + i)) {
        assert(ns.skip(k + i)[0] == ns[k + i]);
    } else {
        tree::lemma_next(Rule::ordinal_value, e, ns, k + i);
    }
}

proof fn lemma_default(n: Node)
    requires
        n.rule == Rule::default,
        tree::well_formed(n),
    ensures
        n.inner.len() == 2,
        n.inner[0].rule == Rule::t_equal,
        n.inner[1].rule == Rule::constant,
{
    tree::lemma_front_rule(Rule::t_equal, rule(Rule::constant), n.inner);
    tree::lemma_last(Rule::constant, n.inner, 1);
}

pub(crate) proof fn lemma_struct_field(n: Node)
    requires
        n.rule == Rule::struct_field,
        tree::well_formed(n),
    ensures
        child(n, 0).rule == Rule::type_spec,
        child(n, 0).inner.len() > 0,
        child(n, 1).rule == Rule::name,
        ({
            let j = after_ordinal(n, 2);
            let k = tree::attrs(n.inner);
            ({
                &&& n.inner.len() == k + j + 1
                &&& child(n, j).rule == Rule::t_semicolon
            }) || ({
                &&& n.inner.len() == k + j + 2
                &&& child(n, j).rule == Rule::default
                &&& child(n, j).inner.len() == 2
                &&& child(n, j).inner[0].rule == Rule::t_equal
                &&& child(n, j + 1).rule == Rule::t_semicolon
            })
        }),
{
    let ns = n.inner;
    let k = tree::attrs(ns);
    let semi = rule(Rule::t_semicolon);
    let e1 = seq2(opt(rule(Rule::default)), semi);
    let e2 = seq2(opt(rule(Rule::ordinal_value)), e1);
    let e3 = seq2(rule(Rule::name), e2);
    tree::lemma_attrs(Rule::type_spec, e3, ns);
    tree::lemma_next(Rule::name, e2, ns, k + 1);
    assert forall|xs: Seq<Node>| tree::yields(e1, xs) implies xs.len() > 0 && xs[0].rule
        != Rule::ordinal_value by {
        tree::lemma_front_opt(rule(Rule::default), semi, xs);
        if !tree::yields(semi, xs) {
            tree::lemma_front_rule(Rule::default, semi, xs);
        }
    }
    lemma_ordinal(e1, n, 2);
    let j = k + after_ordinal(n, 2);
    tree::lemma_front_opt(rule(Rule::default), semi, ns.skip(j));
    if tree::yields(semi, ns.skip(j)) {
        tree::lemma_last(Rule::t_semicolon, ns, j);
    } else {
        tree::lemma_next(Rule::default, semi, ns, j);
        tree::lemma_last(Rule::t_semicolon, ns, j + 1);
        lemma_default(ns[j]);
    }
    lemma_type_spec(ns[k]);
}

/// Builds a field of a struct.
pub fn into_struct_field(pair: Pair) -> (m: StructField)
    requires
        pair@.rule == Rule::struct_field,
        tree::well_formed(pair@),
    ensures
        is_struct_field(m, pair@),
{
    proof {
        lemma_struct_field(pair@);
    }
    let range = Range::from(pair.as_span());
    let mut pairs = pair.into_inner();
    skip_attribute_list(&mut pairs);
    let typ = consume_as_type(&mut pairs);
    let name = consume_as_range(&mut pairs);
    let mut res = StructField { range, typ, name, ordinal: None, default: None };
    let mut item = pairs.next().unwrap();
    if item.as_rule() == Rule::ordinal_value {
        res.ordinal = Some(Range::from(item.as_span()));
        item = pairs.next().unwrap();
    }
    if item.as_rule() == Rule::default {
        let mut inner = item.into_inner();
        consume_token(Rule::t_equal, &mut inner);
        res.default = Some(Range::from(inner.next().unwrap().as_span()));
        consume_semicolon(&mut pairs);
    }
    res
}

/// A member of a struct.
#[derive(Debug, PartialEq)]
pub enum StructBody {
    Const(Const),
    Enum(Enum),
    Field(StructField),
}

/// A struct.
#[derive(Debug, PartialEq)]
pub struct Struct {
    pub range: Range,
    pub name: Range,
    pub members: Vec<StructBody>,
}

/// Whether `m` is what the node `n`, around a member, says.
pub open spec fn is_struct_member(m: StructBody, n: Node) -> bool {
    match m {
        StructBody::Const(c) => n.inner[0].rule == Rule::const_stmt && is_const(c, n.inner[0]),
        StructBody::Enum(e) => n.inner[0].rule == Rule::enum_stmt && is_enum(e, n.inner[0]),
        StructBody::Field(f) => n.inner[0].rule == Rule::struct_field && is_struct_field(
            f,
            n.inner[0],
        ),
    }
}

/// Whether `ms` are what the nodes `ns` say, one by one.
pub open spec fn are_struct_members(ms: Seq<StructBody>, ns: Seq<Node>) -> bool {
    &&& ms.len() == ns.len()
    &&& forall|i: int| 0 <= i < ms.len() ==> is_struct_member(#[trigger] ms[i], ns[i])
}

/// The nodes of the members of the struct `n`, none where it has no body.
pub open spec fn struct_member_nodes(n: Node) -> Seq<Node> {
    if child(n, 2).rule == Rule::struct_body {
        picked(child(n, 2).inner, Rule::struct_item)
    } else {
        Seq::empty()
    }
}

/// Whether `m` is what the node `n` says.
pub open spec fn is_struct(m: Struct, n: Node) -> bool {
    &&& m.range.is_of(n)
    &&& m.name.is_of(child(n, 1))
    &&& are_struct_members(m.members@, struct_member_nodes(n))
}

pub(crate) proof fn lemma_struct_body(n: Node)
    requires
        n.rule == Rule::struct_body,
        tree::well_formed(n),
    ensures
        n.inner.len() >= 2,
        n.inner[0].rule == Rule::t_lbrace,
        n.inner.last().rule == Rule::t_rbrace,
        forall|i: int|
            1 <= i < n.inner.len() - 1 ==> (#[trigger] n.inner[i]).rule == Rule::struct_item,
        picked(n.inner, Rule::struct_item) == n.inner.subrange(1, n.inner.len() - 1),
{
    let x = many(rule(Rule::struct_item));
    tree::lemma_between(Rule::t_lbrace, x, Rule::t_rbrace, n.inner);
    reveal_with_fuel(tree::occurs, 2);
    lemma_picked(n.inner, Rule::struct_item, 1, n.inner.len() - 1);
}

pub(crate) proof fn lemma_struct_item(n: Node)
    requires
        n.rule == Rule::struct_item,
        tree::well_formed(n),
    ensures
        n.inner.len() == 1,
        n.inner[0].rule == Rule::const_stmt || n.inner[0].rule == Rule::enum_stmt
            || n.inner[0].rule == Rule::struct_field,
{
    reveal_with_fuel(tree::yields, 3);
}

/// Builds the members in the body of a struct.
pub fn into_struct_members(pair: Pair) -> (members: Vec<StructBody>)
    requires
        pair@.rule == Rule::struct_body,
        tree::well_formed(pair@),
    ensures
        are_struct_members(members@, picked(pair@.inner, Rule::struct_item)),
{
    let ghost ns = pair@.inner;
    proof {
        lemma_struct_body(pair@);
    }
    let mut pairs = pair.into_inner();
    consume_token(Rule::t_lbrace, &mut pairs);
    let mut members: Vec<StructBody> = Vec::new();
    loop
        invariant
            ns == pair@.inner,
            tree::all_well_formed(ns),
            ns.last().rule == Rule::t_rbrace,
            forall|i: int|
                1 <= i < ns.len() - 1 ==> (#[trigger] ns[i]).rule == Rule::struct_item,
            picked(ns, Rule::struct_item) == ns.subrange(1, ns.len() - 1),
            1 + members@.len() < ns.len(),
            pairs@ == ns.skip(1 + members@.len() as int),
            are_struct_members(members@, ns.subrange(1, 1 + members@.len() as int)),
        decreases ns.len() - members@.len(),
    {
        let item = pairs.next().unwrap();
        if item.as_rule() == Rule::t_rbrace {
            return members;
        }
        // An item holds one member.
        proof {
            lemma_struct_item(item@);
        }
        let mut inner = item.into_inner();
        let member = inner.next().unwrap();
        let member = match member.as_rule() {
            Rule::const_stmt => StructBody::Const(into_const(member)),
            Rule::enum_stmt => StructBody::Enum(into_enum(member)),
            _ => StructBody::Field(into_struct_field(member)),
        };
        members.push(member);
    }
}

pub(crate) proof fn lemma_struct(n: Node)
    requires
        n.rule == Rule::struct_stmt,
        tree::well_formed(n),
    ensures
        child(n, 0).rule == Rule::t_struct,
        child(n, 1).rule == Rule::name,
        ({
            &&& n.inner.len() == tree::attrs(n.inner) + 3
            &&& child(n, 2).rule == Rule::t_semicolon
        }) || ({
            &&& n.inner.len() == tree::attrs(n.inner) + 4
            &&& child(n, 2).rule == Rule::struct_body
            &&& child(n, 3).rule == Rule::t_semicolon
        }),
{
    let ns = n.inner;
    let k = tree::attrs(ns);
    let semi = rule(Rule::t_semicolon);
    let e1 = seq2(opt(rule(Rule::struct_body)), semi);
    let e2 = seq2(rule(Rule::name), e1);
    tree::lemma_attrs(Rule::t_struct, e2, ns);
    tree::lemma_next(Rule::name, e1, ns, k + 1);
    tree::lemma_front_opt(rule(Rule::struct_body), semi, ns.skip(k + 2));
    if tree::yields(semi, ns.skip(k + 2)) {
        tree::lemma_last(Rule::t_semicolon, ns, k + 2);
    } else {
        tree::lemma_next(Rule::struct_body, semi, ns, k + 2);
        tree::lemma_last(Rule::t_semicolon, ns, k + 3);
    }
}

/// Builds a struct.
pub fn into_struct(pair: Pair) -> (m: Struct)
    requires
        pair@.rule == Rule::struct_stmt,
        tree::well_formed(pair@),
    ensures
        is_struct(m, pair@),
{
    proof {
        lemma_struct(pair@);
    }
    let range = Range::from(pair.as_span());
    let mut pairs = pair.into_inner();
    skip_attribute_list(&mut pairs);
    consume_token(Rule::t_struct, &mut pairs);
    let name = consume_as_range(&mut pairs);
    let item = pairs.next().unwrap();
    match item.as_rule() {
        Rule::struct_body => {
            let members = into_struct_members(item);
            consume_semicolon(&mut pairs);
            Struct { range, name, members }
        },
        _ => Struct { range, name, members: Vec::new() },
    }
}

/// A field of a union.
#[derive(Debug, PartialEq)]
pub struct UnionField {
    pub range: Range,
    pub typ: Range,
    pub name: Range,
    pub ordinal: Option<Range>,
}

/// Whether `m` is what the node `n` says.
pub open spec fn is_union_field(m: UnionField, n: Node) -> bool {
    &&& m.range.is_of(n)
    &&& m.typ.is_of(child(n, 0).inner[0])
    &&& m.name.is_of(child(n, 1))
    &&& is_optional(m.ordinal, n, 2, Rule::ordinal_value)
}

pub(crate) proof fn lemma_union_field(n: Node)
    requires
        n.rule == Rule::union_field,
        tree::well_formed(n),
    ensures
        child(n, 0).rule == Rule::type_spec,
        child(n, 0).inner.len() > 0,
        child(n, 1).rule == Rule::name,
        n.inner.len() == tree::attrs(n.inner) + after_ordinal(n, 2) + 1,
        child(n, after_ordinal(n, 2)).rule == Rule::t_semicolon,
{
    let ns = n.inner;
    let k = tree::attrs(ns);
    let semi = rule(Rule::t_semicolon);
    let e2 = seq2(opt(rule(Rule::ordinal_value)), semi);
    let e3 = seq2(rule(Rule::name), e2);
    tree::lemma_attrs(Rule::type_spec, e3, ns);
    tree::lemma_next(Rule::name, e2, ns, k + 1);
    lemma_ordinal(semi, n, 2);
    tree::lemma_last(Rule::t_semicolon, ns, k + after_ordinal(n, 2));
    lemma_type_spec(ns[k]);
}

/// Builds a field of a union.
pub fn into_union_field(pair: Pair) -> (m: UnionField)
    requires
        pair@.rule == Rule::union_field,
        tree::well_formed(pair@),
    ensures
        is_union_field(m, pair@),
{
    proof {
        lemma_union_field(pair@);
    }
    let range = Range::from(pair.as_span());
    let mut pairs = pair.into_inner();
    skip_attribute_list(&mut pairs);
    let typ = consume_as_type(&mut pairs);
    let name = consume_as_range(&mut pairs);
    let item = pairs.next().unwrap();
    let ordinal = match item.as_rule() {
        Rule::ordinal_value => {
            consume_semicolon(&mut pairs);
            Some(Range::from(item.as_span()))
        },
        _ => None,
    };
    UnionField { range, typ, name, ordinal }
}

/// A union.
#[derive(Debug, PartialEq)]
pub struct Union {
    pub range: Range,
    pub name: Range,
    pub fields: Vec<UnionField>,
}

/// Whether `ms` are what the nodes `ns` say, one by one.
pub open spec fn are_union_fields(ms: Seq<UnionField>, ns: Seq<Node>) -> bool {
    &&& ms.len() == ns.len()
    &&& forall|i: int| 0 <= i < ms.len() ==> is_union_field(#[trigger] ms[i], ns[i])
}

/// Whether `m` is what the node `n` says.
pub open spec fn is_union(m: Union, n: Node) -> bool {
    &&& m.range.is_of(n)
    &&& m.name.is_of(child(n, 1))
    &&& are_union_fields(m.fields@, picked(n.inner, Rule::union_field))
}

/// Whether the children of `n` are the rule `first`, a name, a brace, items of the rule
/// `x`, a brace and a semicolon.
pub(crate) open spec fn is_block(n: Node, first: Rule, x: Rule) -> bool {
    let ns = n.inner;
    let k = tree::attrs(ns);
    &&& ns.len() >= k + 5
    &&& child(n, 0).rule == first
    &&& child(n, 1).rule == Rule::name
    &&& child(n, 2).rule == Rule::t_lbrace
    &&& forall|i: int| k + 3 <= i < ns.len() - 2 ==> (#[trigger] ns[i]).rule == x
    &&& ns[ns.len() - 2].rule == Rule::t_rbrace
    &&& ns[ns.len() - 1].rule == Rule::t_semicolon
    &&& picked(ns, x) == ns.subrange(k + 3, ns.len() - 2)
}

pub(crate) proof fn lemma_block(n: Node, first: Rule, x: Rule)
    requires
        tree::yields(
            seq5(
                opt(rule(Rule::attribute_section)),
                rule(first),
                rule(Rule::name),
                rule(Rule::t_lbrace),
                seq3(many(rule(x)), rule(Rule::t_rbrace), rule(Rule::t_semicolon)),
            ),
            n.inner,
        ),
        first == Rule::t_union || first == Rule::t_interface,
        x == Rule::union_field || x == Rule::interface_body,
    ensures
        is_block(n, first, x),
{
    let ns = n.inner;
    let k = tree::attrs(ns);
    let semi = rule(Rule::t_semicolon);
    let e1 = seq3(many(rule(x)), rule(Rule::t_rbrace), semi);
    let e2 = seq2(rule(Rule::t_lbrace), e1);
    let e3 = seq2(rule(Rule::name), e2);
    tree::lemma_attrs(first, e3, ns);
    tree::lemma_next(Rule::name, e2, ns, k + 1);
    tree::lemma_next(Rule::t_lbrace, e1, ns, k + 2);
    let j = tree::lemma_many_next(x, Rule::t_rbrace, semi, ns, k + 3);
    tree::lemma_last(Rule::t_semicolon, ns, j + 1);
    assert forall|q: int| 0 <= q < ns.len() implies ((#[trigger] ns[q]).rule == x <==> k + 3 <= q
        < j) by {
        assert(q < k ==> ns[q].rule == Rule::attribute_section);
        assert(q == k ==> ns[q].rule == first);
        assert(q == k + 1 ==> ns[q].rule == Rule::name);
        assert(q == k + 2 ==> ns[q].rule == Rule::t_lbrace);
    }
    lemma_picked(ns, x, k + 3, j);
}

/// Builds a union.
pub fn into_union(pair: Pair) -> (m: Union)
    requires
        pair@.rule == Rule::union_stmt,
        tree::well_formed(pair@),
    ensures
        is_union(m, pair@),
{
    let ghost n = pair@;
    let ghost ns = n.inner;
    let ghost k = tree::attrs(ns);
    proof {
        lemma_block(n, Rule::t_union, Rule::union_field);
    }
    let range = Range::from(pair.as_span());
    let mut pairs = pair.into_inner();
    skip_attribute_list(&mut pairs);
    consume_token(Rule::t_union, &mut pairs);
    let name = consume_as_range(&mut pairs);
    consume_token(Rule::t_lbrace, &mut pairs);
    let mut fields: Vec<UnionField> = Vec::new();
    loop
        invariant
            n == pair@,
            ns == n.inner,
            k == tree::attrs(ns),
            is_block(n, Rule::t_union, Rule::union_field),
            tree::all_well_formed(ns),
            range.is_of(n),
            name.is_of(child(n, 1)),
            k + 3 + fields@.len() <= ns.len() - 2,
            pairs@ == ns.skip(k + 3 + fields@.len()),
            are_union_fields(fields@, ns.subrange(k + 3, k + 3 + fields@.len())),
        decreases ns.len() - fields@.len(),
    {
        let item = pairs.next().unwrap();
        match item.as_rule() {
            Rule::union_field => {
                fields.push(into_union_field(item));
            },
            _ => {
                consume_semicolon(&mut pairs);
                return Union { range, name, fields };
            },
        }
    }
}

/// A parameter of a method or of its response.
#[derive(Debug, PartialEq)]
pub struct Parameter {
    pub range: Range,
    pub typ: Range,
    pub name: Range,
    pub ordinal: Option<Range>,
}

/// Whether `m` is what the node `n` says.
pub open spec fn is_parameter(m: Parameter, n: Node) -> bool {
    &&& m.range.is_of(n)
    &&& m.typ.is_of(n.inner[0].inner[0])
    &&& m.name.is_of(n.inner[1])
    &&& match m.ordinal {
        Some(ordinal) => n.inner.len() == 3 && ordinal.is_of(n.inner[2]),
        None => n.inner.len() == 2,
    }
}

pub(crate) proof fn lemma_parameter(n: Node)
    requires
        n.rule == Rule::parameter,
        tree::well_formed(n),
    ensures
        n.inner.len() == 2 || n.inner.len() == 3,
        n.inner[0].rule == Rule::type_spec,
        n.inner[0].inner.len() > 0,
        n.inner[1].rule == Rule::name,
        n.inner.len() == 3 ==> n.inner[2].rule == Rule::ordinal_value,
{
    let e1 = opt(rule(Rule::ordinal_value));
    tree::lemma_front_rule(Rule::type_spec, seq2(rule(Rule::name), e1), n.inner);
    tree::lemma_next(Rule::name, e1, n.inner, 1);
    if n.inner.len() != 2 {
        assert(tree::yields(rule(Rule::ordinal_value), n.inner.skip(2)));
        tree::lemma_last(Rule::ordinal_value, n.inner, 2);
    }
    lemma_type_spec(n.inner[0]);
}

/// Builds a parameter.
pub fn into_parameter(pair: Pair) -> (m: Parameter)
    requires
        pair@.rule == Rule::parameter,
        tree::well_formed(pair@),
    ensures
        is_parameter(m, pair@),
{
    proof {
        lemma_parameter(pair@);
    }
    let range = Range::from(pair.as_span());
    let mut pairs = pair.into_inner();
    let typ = consume_as_type(&mut pairs);
    let name = consume_as_range(&mut pairs);
    let ordinal = match pairs.next() {
        Some(item) => Some(Range::from(item.as_span())),
        None => None,
    };
    Parameter { range, typ, name, ordinal }
}

/// Whether `ms` are what the nodes `ns` say, one by one.
pub open spec fn are_parameters(ms: Seq<Parameter>, ns: Seq<Node>) -> bool {
    &&& ms.len() == ns.len()
    &&& forall|i: int| 0 <= i < ms.len() ==> is_parameter(#[trigger] ms[i], ns[i])
}

proof fn lemma_parameter_list(n: Node)
    requires
        n.rule == Rule::parameter_list,
        tree::well_formed(n),
    ensures
        is_list(n.inner, Rule::t_lparen, Rule::parameter, Rule::t_rparen),
{
    let item = rule(Rule::parameter);
    let comma = rule(Rule::t_comma);
    let x = opt(seq2(item, many(seq2(comma, item))));
    tree::lemma_between(Rule::t_lparen, x, Rule::t_rparen, n.inner);
    reveal_with_fuel(tree::occurs, 6);
}

/// Builds the parameters in a list of them.
pub fn into_parameter_list(pair: Pair) -> (params: Vec<Parameter>)
    requires
        pair@.rule == Rule::parameter_list,
        tree::well_formed(pair@),
    ensures
        are_parameters(params@, picked(pair@.inner, Rule::parameter)),
{
    let ghost ns = pair@.inner;
    let ghost mut p: int = 1;
    let ghost mut done: Seq<Node> = Seq::empty();
    proof {
        lemma_parameter_list(pair@);
        lemma_picked_step(ns, Rule::parameter, 0);
        assert(ns.skip(0) =~= ns);
    }
    let mut pairs = pair.into_inner();
    consume_token(Rule::t_lparen, &mut pairs);
    let mut params: Vec<Parameter> = Vec::new();
    loop
        invariant
            ns == pair@.inner,
            is_list(ns, Rule::t_lparen, Rule::parameter, Rule::t_rparen),
            tree::all_well_formed(ns),
            1 <= p < ns.len(),
            pairs@ == ns.skip(p),
            are_parameters(params@, done),
            done + picked(ns.skip(p), Rule::parameter) =~= picked(ns, Rule::parameter),
        decreases ns.len() - p,
    {
        proof {
            lemma_picked_step(ns, Rule::parameter, p);
        }
        let item = pairs.next().unwrap();
        match item.as_rule() {
            Rule::parameter => {
                params.push(into_parameter(item));
                proof {
                    done = done.push(ns[p]);
                }
            },
            Rule::t_comma => {},
            _ => {
                proof {
                    assert(ns.skip(p + 1).len() == 0);
                }
                return params;
            },
        }
        proof {
            p = p + 1;
        }
    }
}

/// The response of a method.
#[derive(Debug, PartialEq)]
pub struct Response {
    pub range: Range,
    pub params: Vec<Parameter>,
}

/// Whether `m` is what the node `n` says.
pub open spec fn is_response(m: Response, n: Node) -> bool {
    &&& m.range.is_of(n)
    &&& are_parameters(m.params@, picked(n.inner[1].inner, Rule::parameter))
}

pub(crate) proof fn lemma_response(n: Node)
    requires
        n.rule == Rule::response,
        tree::well_formed(n),
    ensures
        n.inner.len() == 2,
        n.inner[0].rule == Rule::t_arrow,
        n.inner[1].rule == Rule::parameter_list,
{
    tree::lemma_front_rule(Rule::t_arrow, rule(Rule::parameter_list), n.inner);
    tree::lemma_last(Rule::parameter_list, n.inner, 1);
}

/// Builds a response.
pub fn into_response(pair: Pair) -> (m: Response)
    requires
        pair@.rule == Rule::response,
        tree::well_formed(pair@),
    ensures
        is_response(m, pair@),
{
    proof {
        lemma_response(pair@);
    }
    let range = Range::from(pair.as_span());
    let mut pairs = pair.into_inner();
    consume_token(Rule::t_arrow, &mut pairs);
    let params = into_parameter_list(pairs.next().unwrap());
    Response { range, params }
}

/// A method of an interface.
#[derive(Debug, PartialEq)]
pub struct Method {
    pub range: Range,
    pub name: Range,
    pub ordinal: Option<Range>,
    pub params: Vec<Parameter>,
    pub response: Option<Response>,
}

/// Whether `m` is what the node `n` says.
pub open spec fn is_method(m: Method, n: Node) -> bool {
    let j = after_ordinal(n, 1);
    &&& m.range.is_of(n)
    &&& m.name.is_of(child(n, 0))
    &&& is_optional(m.ordinal, n, 1, Rule::ordinal_value)
    &&& are_parameters(m.params@, picked(child(n, j).inner, Rule::parameter))
    &&& match m.response {
        Some(response) => child(n, j + 1).rule == Rule::response && is_response(
            response,
            child(n, j + 1),
        ),
        None => child(n, j + 1).rule != Rule::response,
    }
}

pub(crate) proof fn lemma_method(n: Node)
    requires
        n.rule == Rule::method_stmt,
        tree::well_formed(n),
    ensures
        child(n, 0).rule == Rule::name,
        child(n, after_ordinal(n, 1)).rule == Rule::parameter_list,
        ({
            let j = after_ordinal(n, 1) + 1;
            let k = tree::attrs(n.inner);
            ({
                &&& n.inner.len() == k + j + 1
                &&& child(n, j).rule == Rule::t_semicolon
            }) || ({
                &&& n.inner.len() == k + j + 2
                &&& child(n, j).rule == Rule::response
                &&& child(n, j + 1).rule == Rule::t_semicolon
            })
        }),
{
    let ns = n.inner;
    let k = tree::attrs(ns);
    let semi = rule(Rule::t_semicolon);
    let e1 = seq2(opt(rule(Rule::response)), semi);
    let e2 = seq2(rule(Rule::parameter_list), e1);
    let e3 = seq2(opt(rule(Rule::ordinal_value)), e2);
    tree::lemma_attrs(Rule::name, e3, ns);
    assert forall|xs: Seq<Node>| tree::yields(e2, xs) implies xs.len() > 0 && xs[0].rule
        != Rule::ordinal_value by {
        tree::lemma_front_rule(Rule::parameter_list, e1, xs);
    }
    lemma_ordinal(e2, n, 1);
    let j = k + after_ordinal(n, 1);
    tree::lemma_next(Rule::parameter_list, e1, ns, j);
    tree::lemma_front_opt(rule(Rule::response), semi, ns.skip(j + 1));
    if tree::yields(semi, ns.skip(j + 1)) {
        tree::lemma_last(Rule::t_semicolon, ns, j + 1);
    } else {
        tree::lemma_next(Rule::response, semi, ns, j + 1);
        tree::lemma_last(Rule::t_semicolon, ns, j + 2);
    }
}

/// Builds a method.
pub fn into_method(pair: Pair) -> (m: Method)
    requires
        pair@.rule == Rule::method_stmt,
        tree::well_formed(pair@),
    ensures
        is_method(m, pair@),
{
    proof {
        lemma_method(pair@);
    }
    let range = Range::from(pair.as_span());
    let mut pairs = pair.into_inner();
    skip_attribute_list(&mut pairs);
    let name = consume_as_range(&mut pairs);
    let mut item = pairs.next().unwrap();
    let mut ordinal: Option<Range> = None;
    if item.as_rule() == Rule::ordinal_value {
        ordinal = Some(Range::from(item.as_span()));
        item = pairs.next().unwrap();
    }
    let params = into_parameter_list(item);
    let item = pairs.next().unwrap();
    let response = match item.as_rule() {
        Rule::response => {
            consume_semicolon(&mut pairs);
            Some(into_response(item))
        },
        _ => None,
    };
    Method { range, name, ordinal, params, response }
}

/// A member of an interface.
#[derive(Debug, PartialEq)]
pub enum InterfaceMember {
    Const(Const),
    Enum(Enum),
    Method(Method),
}

/// Whether `m` is what the node `n`, around a member, says.
pub open spec fn is_interface_member(m: InterfaceMember, n: Node) -> bool {
    match m {
        InterfaceMember::Const(c) => n.inner[0].rule == Rule::const_stmt && is_const(
            c,
            n.inner[0],
        ),
        InterfaceMember::Enum(e) => n.inner[0].rule == Rule::enum_stmt && is_enum(e, n.inner[0]),
        InterfaceMember::Method(f) => n.inner[0].rule == Rule::method_stmt && is_method(
            f,
            n.inner[0],
        ),
    }
}

pub(crate) proof fn lemma_interface_body(n: Node)
    requires
        n.rule == Rule::interface_body,
        tree::well_formed(n),
    ensures
        n.inner.len() == 1,
        n.inner[0].rule == Rule::const_stmt || n.inner[0].rule == Rule::enum_stmt
            || n.inner[0].rule == Rule::method_stmt,
{
    reveal_with_fuel(tree::yields, 3);
}

/// Builds a member of an interface.
pub fn into_interface_member(pair: Pair) -> (m: InterfaceMember)
    requires
        pair@.rule == Rule::interface_body,
        tree::well_formed(pair@),
    ensures
        is_interface_member(m, pair@),
{
    proof {
        lemma_interface_body(pair@);
    }
    let mut pairs = pair.into_inner();
    let member = pairs.next().unwrap();
    match member.as_rule() {
        Rule::const_stmt => InterfaceMember::Const(into_const(member)),
        Rule::enum_stmt => InterfaceMember::Enum(into_enum(member)),
        _ => InterfaceMember::Method(into_method(member)),
    }
}

/// An interface.
#[derive(Debug, PartialEq)]
pub struct Interface {
    pub range: Range,
    pub name: Range,
    pub members: Vec<InterfaceMember>,
}

/// Whether `ms` are what the nodes `ns` say, one by one.
pub open spec fn are_interface_members(ms: Seq<InterfaceMember>, ns: Seq<Node>) -> bool {
    &&& ms.len() == ns.len()
    &&& forall|i: int| 0 <= i < ms.len() ==> is_interface_member(#[trigger] ms[i], ns[i])
}

/// Whether `m` is what the node `n` says.
pub open spec fn is_interface(m: Interface, n: Node) -> bool {
    &&& m.range.is_of(n)
    &&& m.name.is_of(child(n, 1))
    &&& are_interface_members(m.members@, picked(n.inner, Rule::interface_body))
}

/// Builds an interface.
pub fn into_interface(pair: Pair) -> (m: Interface)
    requires
        pair@.rule == Rule::interface,
        tree::well_formed(pair@),
    ensures
        is_interface(m, pair@),
{
    let ghost n = pair@;
    let ghost ns = n.inner;
    let ghost k = tree::attrs(ns);
    proof {
        lemma_block(n, Rule::t_interface, Rule::interface_body);
    }
    let range = Range::from(pair.as_span());
    let mut pairs = pair.into_inner();
    skip_attribute_list(&mut pairs);
    consume_token(Rule::t_interface, &mut pairs);
    let name = consume_as_range(&mut pairs);
    consume_token(Rule::t_lbrace, &mut pairs);
    let mut members: Vec<InterfaceMember> = Vec::new();
    loop
        invariant
            n == pair@,
            ns == n.inner,
            k == tree::attrs(ns),
            is_block(n, Rule::t_interface, Rule::interface_body),
            tree::all_well_formed(ns),
            range.is_of(n),
            name.is_of(child(n, 1)),
            k + 3 + members@.len() <= ns.len() - 2,
            pairs@ == ns.skip(k + 3 + members@.len()),
            are_interface_members(members@, ns.subrange(k + 3, k + 3 + members@.len())),
        decreases ns.len() - members@.len(),
    {
        let item = pairs.next().unwrap();
        match item.as_rule() {
            Rule::interface_body => {
                members.push(into_interface_member(item));
            },
            _ => {
                consume_semicolon(&mut pairs);
                return Interface { range, name, members };
            },
        }
    }
}

/// A statement.
#[derive(Debug, PartialEq)]
pub enum Statement {
    Module(Module),
    Import(Import),
    Interface(Interface),
    Struct(Struct),
    Union(Union),
    Enum(Enum),
    Const(Const),
}

/// Whether `m` is what the node `n`, around a statement, says.
pub open spec fn is_statement(m: Statement, n: Node) -> bool {
    let x = n.inner[0];
    match m {
        Statement::Module(s) => x.rule == Rule::module_stmt && is_module(s, x),
        Statement::Import(s) => x.rule == Rule::import_stmt && is_import(s, x),
        Statement::Interface(s) => x.rule == Rule::interface && is_interface(s, x),
        Statement::Struct(s) => x.rule == Rule::struct_stmt && is_struct(s, x),
        Statement::Union(s) => x.rule == Rule::union_stmt && is_union(s, x),
        Statement::Enum(s) => x.rule == Rule::enum_stmt && is_enum(s, x),
        Statement::Const(s) => x.rule == Rule::const_stmt && is_const(s, x),
    }
}

pub(crate) proof fn lemma_statement(n: Node)
    requires
        n.rule == Rule::statement,
        tree::well_formed(n),
    ensures
        n.inner.len() == 1,
        ({
            let r = n.inner[0].rule;
            r == Rule::module_stmt || r == Rule::import_stmt || r == Rule::interface || r
                == Rule::struct_stmt || r == Rule::union_stmt || r == Rule::enum_stmt || r
                == Rule::const_stmt
        }),
{
    reveal_with_fuel(tree::yields, 7);
}

/// Builds a statement.
pub fn into_statement(pair: Pair) -> (m: Statement)
    requires
        pair@.rule == Rule::statement,
        tree::well_formed(pair@),
    ensures
        is_statement(m, pair@),
{
    proof {
        lemma_statement(pair@);
    }
    let mut pairs = pair.into_inner();
    let stmt = pairs.next().unwrap();
    match stmt.as_rule() {
        Rule::module_stmt => Statement::Module(into_module(stmt)),
        Rule::import_stmt => Statement::Import(into_import(stmt)),
        Rule::interface => Statement::Interface(into_interface(stmt)),
        Rule::struct_stmt => Statement::Struct(into_struct(stmt)),
        Rule::union_stmt => Statement::Union(into_union(stmt)),
        Rule::enum_stmt => Statement::Enum(into_enum(stmt)),
        _ => Statement::Const(into_const(stmt)),
    }
}

/// A Mojom file.
#[derive(Debug, PartialEq)]
pub struct MojomFile {
    pub stmts: Vec<Statement>,
}

/// Whether `ms` are what the nodes `ns` say, one by one.
pub open spec fn are_statements(ms: Seq<Statement>, ns: Seq<Node>) -> bool {
    &&& ms.len() == ns.len()
    &&& forall|i: int| 0 <= i < ms.len() ==> is_statement(#[trigger] ms[i], ns[i])
}

/// Whether `m` is what the node `n` says.
pub open spec fn is_mojom_file(m: MojomFile, n: Node) -> bool {
    are_statements(m.stmts@, picked(n.inner, Rule::statement))
}

pub(crate) proof fn lemma_mojom_file(n: Node)
    requires
        n.rule == Rule::mojom_file,
        tree::well_formed(n),
    ensures
        n.inner.len() > 0,
        n.inner.last().rule == Rule::EOI,
        forall|i: int| 0 <= i < n.inner.len() - 1 ==> (#[trigger] n.inner[i]).rule
            == Rule::statement,
        picked(n.inner, Rule::statement) == n.inner.subrange(0, n.inner.len() - 1),
{
    let ns = n.inner;
    let eoi = rule(Rule::EOI);
    let rest = seq2(many(rule(Rule::statement)), eoi);
    tree::lemma_front_plain(Expr::Start, rest, ns);
    let k = choose|k: int|
        0 <= k <= ns.len() && tree::yields(many(rule(Rule::statement)), #[trigger] ns.take(k))
            && tree::yields(eoi, ns.skip(k));
    tree::lemma_last(Rule::EOI, ns, k);
    assert forall|i: int| 0 <= i < k implies (#[trigger] ns[i]).rule == Rule::statement by {
        tree::lemma_occurs(many(rule(Rule::statement)), ns.take(k), i);
        assert(ns.take(k)[i] == ns[i]);
        reveal_with_fuel(tree::occurs, 2);
    }
    lemma_picked(ns, Rule::statement, 0, k);
}

/// Builds a Mojom file.
pub fn into_mojom_file(pair: Pair) -> (m: MojomFile)
    requires
        pair@.rule == Rule::mojom_file,
        tree::well_formed(pair@),
    ensures
        is_mojom_file(m, pair@),
{
    let ghost ns = pair@.inner;
    proof {
        lemma_mojom_file(pair@);
    }
    let mut pairs = pair.into_inner();
    let mut stmts: Vec<Statement> = Vec::new();
    proof {
        assert(ns.skip(0) =~= ns);
    }
    loop
        invariant
            ns == pair@.inner,
            tree::all_well_formed(ns),
            ns.last().rule == Rule::EOI,
            forall|i: int| 0 <= i < ns.len() - 1 ==> (#[trigger] ns[i]).rule == Rule::statement,
            picked(ns, Rule::statement) == ns.subrange(0, ns.len() - 1),
            stmts@.len() < ns.len(),
            pairs@ == ns.skip(stmts@.len() as int),
            are_statements(stmts@, ns.subrange(0, stmts@.len() as int)),
        decreases ns.len() - stmts@.len(),
    {
        let item = pairs.next().unwrap();
        match item.as_rule() {
            Rule::statement => {
                stmts.push(into_statement(item));
            },
            _ => {
                return MojomFile { stmts };
            },
        }
    }
}

/// Zero-based line/column in a text.
#[derive(Debug, Clone, Copy, PartialEq, Eq, Structural)]
pub struct LineCol {
    pub line: usize,
    pub col: usize,
}

impl LineCol {
    /// Whether this is where the byte `offset` of `chars` is.
    pub open spec fn is_at(self, chars: Seq<char>, offset: int) -> bool {
        &&& self.line == text::line_feeds(text::part(chars, 0, offset))
        &&& self.col == text::last_line_len(text::part(chars, 0, offset))
    }
}

/// `pest::Position::new` and `pest::Position::line_col`.
///
/// `new` gives a position exactly where a character of the text starts or the text
/// ends. `line_col` counts from 1: the line feeds before the position are the lines
/// before it, and the characters after the last of them are the columns before it.
#[verifier::external_body]
fn pest_line_col(input: &str, offset: usize) -> (r: Option<(usize, usize)>)
    ensures
        r is Some <==> text::boundary(text::utf8(input@), offset as int),
        r matches Some(p) ==> p.0 == 1 + text::line_feeds(text::part(input@, 0, offset as int))
            && p.1 == 1 + text::last_line_len(text::part(input@, 0, offset as int)),
{
    pest::Position::new(input, offset).map(|p| p.line_col())
}

/// Converts `offset` to LineCol in `text`.
pub fn line_col(text: &str, offset: usize) -> (r: Option<LineCol>)
    ensures
        r is Some <==> text::boundary(text::utf8(text@), offset as int),
        r matches Some(p) ==> p.is_at(text@, offset as int),
{
    match pest_line_col(text, offset) {
        Some((line, col)) => Some(LineCol { line: line - 1, col: col - 1 }),
        None => None,
    }
}

/// The number of bytes from `pos` up to the first space, carriage return or line feed, or up
/// to the end.
pub open spec fn token_len(s: Seq<u8>, pos: int) -> nat
    decreases s.len() - pos,
{
    if !(0 <= pos < s.len()) || s[pos] == 0x20 || s[pos] == 0x0d || s[pos] == 0x0a {
        0
    } else {
        1 + token_len(s, pos + 1)
    }
}

/// Where the token at `start` ends.
pub open spec fn token_end(input: Seq<char>, start: int) -> int {
    start + token_len(text::utf8(input), start)
}

/// Finds where the token at `start` ends.
pub fn find_token_end_position(input: &str, start: usize) -> (end: usize)
    requires
        text::boundary(text::utf8(input@), start as int),
    ensures
        end == token_end(input@, start as int),
        start <= end,
        text::boundary(text::utf8(input@), end as int),
{
    let s = input.as_bytes();
    let mut end: usize = start;
    while end < s.len() && !(s[end] == 0x20 || s[end] == 0x0d || s[end] == 0x0a)
        invariant
            s@ == text::utf8(input@),
            start <= end <= s@.len(),
            token_len(s@, start as int) == end - start + token_len(s@, end as int),
        decreases s@.len() - end,
    {
        end = end + 1;
    }
    end
}

/// Represents a syntax error.
#[derive(Debug)]
pub struct SyntaxError<'a> {
    pub input: &'a str,
    pub err: ParseError,
    pub span: (usize, usize),
}

/// The strings in `names`.
pub open spec fn views(names: Seq<&'static str>) -> Seq<Seq<char>> {
    Seq::new(names.len(), |i: int| names[i]@)
}

/// What `pest::error::Error` writes about a parsing error at the byte `at` of `input` that
/// expected what `names` lists.
pub uninterp spec fn pest_error_text(
    input: Seq<char>,
    at: nat,
    names: Seq<Seq<char>>,
) -> Seq<char>;

/// `pest::error::Error::new_from_pos`, `renamed_rules` and the `Display` of the error.
///
/// The text depends on the input, the position and the names of what was expected, and
/// on nothing else. What the text is is not stated.
#[verifier::external_body]
fn pest_error_message(input: &str, at: usize, names: Vec<&'static str>) -> (r: String)
    requires
        text::boundary(text::utf8(input@), at as int),
    ensures
        r@ == pest_error_text(input@, at as nat, views(names@)),
{
    let variant = pest::error::ErrorVariant::ParsingError { positives: names, negatives: vec![] };
    let position = pest::Position::new(input, at).unwrap();
    let error = pest::error::Error::<&'static str>::new_from_pos(variant, position);
    error.renamed_rules(|name| name.to_string()).to_string()
}

/// How the rules in `rules` are called.
pub open spec fn labels(rules: Seq<Rule>) -> Seq<Seq<char>> {
    Seq::new(rules.len(), |i: int| label(rules[i])@)
}

/// The zero-based line and column of the byte `offset` of `chars`.
pub open spec fn lsp_position(chars: Seq<char>, offset: int) -> lsp::Position {
    lsp::Position {
        line: text::line_feeds(text::part(chars, 0, offset)) as u32,
        character: text::last_line_len(text::part(chars, 0, offset)) as u32,
    }
}

/// The lines and columns of a part of `chars`.
pub open spec fn lsp_range_of(chars: Seq<char>, start: int, end: int) -> lsp::Range {
    lsp::Range { start: lsp_position(chars, start), end: lsp_position(chars, end) }
}

impl<'a> SyntaxError<'a> {
    /// Whether this is the error at `err.at`, which reaches to the end of the token there.
    pub open spec fn is_at(self, err: ParseError) -> bool {
        &&& self.err == err
        &&& self.span.0 == err.at
        &&& self.span.1 == token_end(self.input@, err.at as int)
    }

    /// Whether the error starts and ends between two characters, as every error of [`parse`]
    /// does.
    pub open spec fn wf(self) -> bool {
        &&& text::boundary(text::utf8(self.input@), self.err.at as int)
        &&& text::boundary(text::utf8(self.input@), self.span.0 as int)
        &&& text::boundary(text::utf8(self.input@), self.span.1 as int)
    }

    /// Returns `start` and `end` positions of the error.
    pub fn range(&self) -> (r: (LineCol, LineCol))
        requires
            self.wf(),
        ensures
            r.0.is_at(self.input@, self.span.0 as int),
            r.1.is_at(self.input@, self.span.1 as int),
    {
        let start = line_col(self.input, self.span.0).unwrap();
        let end = line_col(self.input, self.span.1).unwrap();
        (start, end)
    }

    /// The range of the error as the protocol counts.
    pub fn lsp_range(&self) -> (r: lsp::Range)
        requires
            self.wf(),
        ensures
            r == lsp_range_of(self.input@, self.span.0 as int, self.span.1 as int),
    {
        let (start, end) = self.range();
        lsp::Range {
            start: lsp::Position { line: start.line as u32, character: start.col as u32 },
            end: lsp::Position { line: end.line as u32, character: end.col as u32 },
        }
    }

    /// The error as a diagnostic.
    pub fn lsp_diagnostic(&self) -> (r: lsp::Diagnostic)
        requires
            self.wf(),
        ensures
            r@ == lsp::error_view(
                lsp_range_of(self.input@, self.span.0 as int, self.span.1 as int),
                "mojom"@,
                self.message(),
            ),
    {
        lsp::Diagnostic {
            range: self.lsp_range(),
            severity: Some(lsp::DiagnosticSeverity::Error),
            code: Some("mojom".to_owned()),
            source: Some("mojom".to_owned()),
            message: self.to_string(),
        }
    }

    /// What the error says.
    pub open spec fn message(self) -> Seq<char> {
        pest_error_text(self.input@, self.err.at as nat, labels(self.err.expected@))
    }

    /// Writes what the error says.
    pub fn to_string(&self) -> (r: String)
        requires
            self.wf(),
        ensures
            r@ == self.message(),
    {
        let mut names: Vec<&'static str> = Vec::new();
        let mut i: usize = 0;
        while i < self.err.expected.len()
            invariant
                i <= self.err.expected@.len(),
                names@.len() == i,
                forall|j: int| 0 <= j < i ==> (#[trigger] names@[j])@ == label(
                    self.err.expected@[j],
                )@,
            decreases self.err.expected@.len() - i,
        {
            names.push(label(self.err.expected[i]));
            i = i + 1;
        }
        proof {
            assert(views(names@) =~= labels(self.err.expected@));
        }
        pest_error_message(self.input, self.err.at, names)
    }

    /// The error that `err` stands for.
    fn new(input: &'a str, err: ParseError) -> (r: SyntaxError<'a>)
        requires
            text::boundary(text::utf8(input@), err.at as int),
        ensures
            r.input@ == input@,
            r.is_at(err),
            r.wf(),
    {
        let start: usize = err.at;
        let end: usize = find_token_end_position(input, start);
        SyntaxError { input, err, span: (start, end) }
    }
}

/// Matches a whole file.
pub fn parse_input(input: &str) -> (result: Result<Pairs, ParseError>)
    ensures
        match result {
            Ok(pairs) => parser::parsed(Rule::mojom_file, input@).hit matches Some(h) && pairs@
                == h.nodes,
            Err(err) => is_parse_error(err, input@),
        },
{
    MojomParser::parse(Rule::mojom_file, input)
}

/// Whether `err` is why `input` is no Mojom file.
pub open spec fn is_parse_error(err: ParseError, input: Seq<char>) -> bool {
    let o = parser::parsed(Rule::mojom_file, input);
    &&& o.hit is None
    &&& err.at == o.trace.at
    &&& parser::is_listing(err.expected@, o.trace.rules)
}

/// Whether `d` says in the name of `source` why `input` is no Mojom file: it stands at the
/// farthest place at which rules failed, reaches to the end of the token there and lists those
/// rules.
pub open spec fn is_syntax_error(
    d: lsp::DiagnosticView,
    input: Seq<char>,
    source: Seq<char>,
) -> bool {
    let t = parser::parsed(Rule::mojom_file, input).trace;
    exists|expected: Seq<Rule>|
        #[trigger] parser::is_listing(expected, t.rules) && d == lsp::error_view(
            lsp_range_of(input, t.at as int, token_end(input, t.at as int)),
            source,
            pest_error_text(input, t.at, labels(expected)),
        )
}

/// Builds the syntax tree from the pair of a whole file.
pub fn build_syntax_tree(pairs: Pairs) -> (m: MojomFile)
    requires
        pairs@.len() > 0,
        pairs@[0].rule == Rule::mojom_file,
        tree::well_formed(pairs@[0]),
    ensures
        is_mojom_file(m, pairs@[0]),
{
    let mut pairs = pairs;
    let inner = pairs.next().unwrap();
    into_mojom_file(inner)
}

/// Whether `input` is a Mojom file.
pub open spec fn is_mojom(input: Seq<char>) -> bool {
    parser::parsed(Rule::mojom_file, input).hit is Some
}

/// Whether `m` is the syntax tree of `input`.
pub open spec fn is_tree_of(m: MojomFile, input: Seq<char>) -> bool {
    &&& parser::parsed(Rule::mojom_file, input).hit matches Some(h)
    &&& is_mojom_file(m, h.nodes[0])
    &&& fits::file_fits(m, text::utf8(input))
}

/// Parses `input` into a syntax tree.
pub fn parse(input: &str) -> (result: Result<MojomFile, SyntaxError<'_>>)
    ensures
        match result {
            Ok(m) => is_tree_of(m, input@),
            Err(err) => {
                &&& is_parse_error(err.err, input@)
                &&& err.input@ == input@
                &&& err.is_at(err.err)
                &&& err.wf()
            },
        },
{
    proof {
        parser::lemma_parsed(Rule::mojom_file, input@);
    }
    match parse_input(input) {
        Ok(pairs) => {
            let ghost node = pairs@[0];
            let m = build_syntax_tree(pairs);
            proof {
                fits::lemma_file(m, node, text::utf8(input@));
            }
            Ok(m)
        },
        Err(err) => Err(SyntaxError::new(input, err)),
    }
}

} // verus!
