//! How the statements of a file are written: which words and signs stand around the parts of a
//! syntax tree, with nothing but white space and comments between them.
use vstd::prelude::*;

use crate::fits;
use crate::grammar::{
    is_atomic, keyword, many, opt, or2, or4, rule, rule_body, seq2, seq3, seq4, seq5, CharSet,
    Expr, Rule,
};
use crate::layout;
use crate::lexemes;
use crate::locality;
use crate::parser;
use crate::peg;
use crate::peg::{Node, Trace};
use crate::ranks;
use crate::syntax;
use crate::syntax::{
    Const, Enum, EnumValue, Import, Interface, InterfaceMember, Method, Module, MojomFile,
    Parameter, Range, Response, Statement, Struct, StructBody, StructField, Union, UnionField,
};
use crate::text;
use crate::tree;

verus! {

/// Whether `w` stands at `pos` as a whole word.
pub open spec fn whole_word(s: Seq<u8>, pos: int, w: Seq<char>) -> bool {
    &&& 0 <= pos
    &&& pos + w.len() <= s.len()
    &&& forall|i: int| 0 <= i < w.len() ==> s[pos + i] == #[trigger] w[i] as u32
    &&& !lexemes::stands_in(CharSet::NamePart, s, pos + w.len())
}

/// Whether a list of attributes ends at `pos`.
pub open spec fn list_ends(s: Seq<u8>, pos: int) -> bool {
    lexemes::mark(s, pos - 1, ']')
}

/// Whether what starts at `start` goes on at `pos`, behind its attributes if it has any.
pub open spec fn after_attributes(s: Seq<u8>, start: int, pos: int) -> bool {
    pos == layout::behind(s, start) || (lexemes::mark(s, start, '[') && exists|a: int|
        start < a && #[trigger] list_ends(s, a) && pos == layout::behind(s, a))
}

/// Whether what starts at `start` is introduced by the word `w`, behind its attributes if it has
/// any, and goes on at `next`.
pub open spec fn introduced(s: Seq<u8>, start: int, w: Seq<char>, next: int) -> bool {
    exists|k: int| #[trigger]
        whole_word(s, k, w) && after_attributes(s, start, k) && next == layout::behind(
            s,
            k + w.len(),
        )
}

/// Whether a semicolon follows `pos` and ends at `end`.
pub open spec fn closed(s: Seq<u8>, pos: int, end: int) -> bool {
    lexemes::mark(s, layout::behind(s, pos), ';') && end == layout::behind(s, pos) + 1
}

/// Whether `sign` follows `pos` and something goes on at `next` behind it.
pub open spec fn joined_by(s: Seq<u8>, pos: int, sign: char, next: int) -> bool {
    lexemes::mark(s, layout::behind(s, pos), sign) && next == layout::behind(
        s,
        layout::behind(s, pos) + 1,
    )
}

/// How a module statement is written.
pub open spec fn module_written(m: Module, s: Seq<u8>) -> bool {
    &&& introduced(s, m.range.start as int, seq!['m', 'o', 'd', 'u', 'l', 'e'], m.name.start as int)
    &&& lexemes::is_dotted(s, m.name.start as int, m.name.end as int)
    &&& closed(s, m.name.end as int, m.range.end as int)
}

/// How an import is written.
pub open spec fn import_written(m: Import, s: Seq<u8>) -> bool {
    &&& introduced(s, m.range.start as int, seq!['i', 'm', 'p', 'o', 'r', 't'], m.path.start as int)
    &&& lexemes::mark(s, m.path.start as int, '"')
    &&& locality::string_rest(s, m.path.start + 1) == Some((m.path.end - m.path.start - 1) as nat)
    &&& closed(s, m.path.end as int, m.range.end as int)
}

/// The bytes of ASCII characters that stand at a place.
proof fn lemma_ascii_word(w: Seq<char>, s: Seq<u8>, pos: int)
    requires
        vstd::utf8::is_ascii_chars(w),
        peg::stands_at(text::utf8(w), s, pos),
        0 <= pos,
    ensures
        text::utf8(w).len() == w.len(),
        pos + w.len() <= s.len(),
        forall|i: int| 0 <= i < w.len() ==> s[pos + i] == #[trigger] w[i] as u32,
{
    locality::lemma_ascii_bytes(w);
    let b = text::utf8(w);
    assert forall|i: int| 0 <= i < w.len() implies s[pos + i] == #[trigger] w[i] as u32 by {
        assert(s.subrange(pos, pos + b.len())[i] == b[i]);
        assert(b[i] == w[i] as u8);
    }
}

/// ASCII characters stand at a place exactly if their bytes do.
pub(crate) proof fn lemma_word_stands(w: Seq<char>, s: Seq<u8>, pos: int)
    requires
        vstd::utf8::is_ascii_chars(w),
        0 <= pos,
    ensures
        text::utf8(w).len() == w.len(),
        peg::stands_at(text::utf8(w), s, pos) <==> pos + w.len() <= s.len() && forall|i: int|
            0 <= i < w.len() ==> s[pos + i] == #[trigger] w[i] as u32,
{
    locality::lemma_ascii_bytes(w);
    if peg::stands_at(text::utf8(w), s, pos) {
        lemma_ascii_word(w, s, pos);
    }
    if pos + w.len() <= s.len() && forall|i: int|
        0 <= i < w.len() ==> s[pos + i] == #[trigger] w[i] as u32 {
        let b = text::utf8(w);
        let part = s.subrange(pos, pos + w.len());
        assert forall|i: int| 0 <= i < w.len() implies part[i] == b[i] by {
            assert(b[i] == w[i] as u8);
            assert(s[pos + i] == w[i] as u32);
        }
        assert(part =~= b);
    }
}

/// A sign stands where its node does.
proof fn lemma_sign(w: &'static str, c: char, s: Seq<u8>, n: Node)
    requires
        layout::laid_out(s, n),
        is_atomic(n.rule),
        rule_body(n.rule) == Expr::Word(w),
        w@ == seq![c],
        '\0' <= c <= '\u{7f}',
    ensures
        lexemes::mark(s, n.start as int, c),
        n.end == n.start + 1,
{
    let (trace, bound) = choose|trace: Trace, bound: nat|
        (#[trigger] peg::run(rule_body(n.rule), s, n.start, trace, true, bound)).hit matches Some(h)
            && n.start + h.len == n.end;
    locality::lemma_one_byte(w, c, s, n.start as int);
}

/// A word stands where its node does.
proof fn lemma_keyword(w: &'static str, s: Seq<u8>, n: Node)
    requires
        layout::laid_out(s, n),
        is_atomic(n.rule),
        rule_body(n.rule) == Expr::Keyword(w),
        vstd::utf8::is_ascii_chars(w@),
    ensures
        whole_word(s, n.start as int, w@),
        n.end == n.start + w@.len(),
{
    let (trace, bound) = choose|trace: Trace, bound: nat|
        (#[trigger] peg::run(rule_body(n.rule), s, n.start, trace, true, bound)).hit matches Some(h)
            && n.start + h.len == n.end;
    lemma_ascii_word(w@, s, n.start as int);
}

proof fn lemma_semicolon(s: Seq<u8>, n: Node)
    requires
        layout::laid_out(s, n),
        n.rule == Rule::t_semicolon,
    ensures
        lexemes::mark(s, n.start as int, ';'),
        n.end == n.start + 1,
{
    reveal_strlit(";");
    assert(";"@ =~= seq![';']);
    lemma_sign(";", ';', s, n);
}

proof fn lemma_comma(s: Seq<u8>, n: Node)
    requires
        layout::laid_out(s, n),
        n.rule == Rule::t_comma,
    ensures
        lexemes::mark(s, n.start as int, ','),
        n.end == n.start + 1,
{
    reveal_strlit(",");
    assert(","@ =~= seq![',']);
    lemma_sign(",", ',', s, n);
}

proof fn lemma_equal(s: Seq<u8>, n: Node)
    requires
        layout::laid_out(s, n),
        n.rule == Rule::t_equal,
    ensures
        lexemes::mark(s, n.start as int, '='),
        n.end == n.start + 1,
{
    reveal_strlit("=");
    assert("="@ =~= seq!['=']);
    lemma_sign("=", '=', s, n);
}

proof fn lemma_brackets(s: Seq<u8>, n: Node)
    requires
        layout::laid_out(s, n),
    ensures
        n.rule == Rule::t_lbrace ==> lexemes::mark(s, n.start as int, '{') && n.end == n.start + 1,
        n.rule == Rule::t_rbrace ==> lexemes::mark(s, n.start as int, '}') && n.end == n.start + 1,
        n.rule == Rule::t_lparen ==> lexemes::mark(s, n.start as int, '(') && n.end == n.start + 1,
        n.rule == Rule::t_rparen ==> lexemes::mark(s, n.start as int, ')') && n.end == n.start + 1,
        n.rule == Rule::t_lbracket ==> lexemes::mark(s, n.start as int, '[') && n.end == n.start
            + 1,
        n.rule == Rule::t_rbracket ==> lexemes::mark(s, n.start as int, ']') && n.end == n.start
            + 1,
{
    reveal_strlit("{");
    reveal_strlit("}");
    reveal_strlit("(");
    reveal_strlit(")");
    reveal_strlit("[");
    reveal_strlit("]");
    assert("{"@ =~= seq!['{']);
    assert("}"@ =~= seq!['}']);
    assert("("@ =~= seq!['(']);
    assert(")"@ =~= seq![')']);
    assert("["@ =~= seq!['[']);
    assert("]"@ =~= seq![']']);
    match n.rule {
        Rule::t_lbrace => lemma_sign("{", '{', s, n),
        Rule::t_rbrace => lemma_sign("}", '}', s, n),
        Rule::t_lparen => lemma_sign("(", '(', s, n),
        Rule::t_rparen => lemma_sign(")", ')', s, n),
        Rule::t_lbracket => lemma_sign("[", '[', s, n),
        Rule::t_rbracket => lemma_sign("]", ']', s, n),
        _ => {},
    }
}

proof fn lemma_marks_nullable(s: Seq<u8>, n: Node)
    requires
        layout::laid_out(s, n),
        n.rule == Rule::t_nullable,
    ensures
        lexemes::mark(s, n.start as int, '?'),
        n.end == n.start + 1,
{
    reveal_strlit("?");
    assert("?"@ =~= seq!['?']);
    lemma_sign("?", '?', s, n);
}

proof fn lemma_arrow(s: Seq<u8>, n: Node)
    requires
        layout::laid_out(s, n),
        n.rule == Rule::t_arrow,
    ensures
        lexemes::mark(s, n.start as int, '='),
        lexemes::mark(s, n.start as int + 1, '>'),
        n.end == n.start + 2,
{
    reveal_strlit("=>");
    assert("=>"@ =~= seq!['=', '>']);
    let w = "=>"@;
    let (trace, bound) = choose|trace: Trace, bound: nat|
        (#[trigger] peg::run(rule_body(n.rule), s, n.start, trace, true, bound)).hit matches Some(h)
            && n.start + h.len == n.end;
    lemma_ascii_word(w, s, n.start as int);
    assert(s[n.start as int + 0] == w[0] as u32);
    assert(s[n.start as int + 1] == w[1] as u32);
}

/// A name stands where its node does.
proof fn lemma_name(s: Seq<u8>, n: Node)
    requires
        vstd::utf8::valid_utf8(s),
        layout::laid_out(s, n),
        n.rule == Rule::name,
    ensures
        lexemes::is_name(s, n.start as int, n.end as int),
{
    let (trace, bound) = choose|trace: Trace, bound: nat|
        (#[trigger] peg::run(rule_body(n.rule), s, n.start, trace, true, bound)).hit matches Some(h)
            && n.start + h.len == n.end;
    lexemes::lemma_chars(CharSet::NameStart, CharSet::NamePart, s, n.start, trace, bound);
}

/// An ordinal stands where its node does.
proof fn lemma_ordinal(s: Seq<u8>, n: Node)
    requires
        vstd::utf8::valid_utf8(s),
        layout::laid_out(s, n),
        n.rule == Rule::ordinal_value,
    ensures
        lexemes::is_ordinal(s, n.start as int, n.end as int),
{
    let (trace, bound) = choose|trace: Trace, bound: nat|
        (#[trigger] peg::run(rule_body(n.rule), s, n.start, trace, true, bound)).hit matches Some(h)
            && n.start + h.len == n.end;
    lexemes::lemma_ordinal(s, n.start, trace, bound);
}

/// An identifier stands where its node does.
proof fn lemma_identifier(s: Seq<u8>, n: Node)
    requires
        vstd::utf8::valid_utf8(s),
        layout::laid_out(s, n),
        n.rule == Rule::identifier,
    ensures
        lexemes::is_dotted(s, n.start as int, n.end as int),
{
    let (trace, bound) = choose|trace: Trace, bound: nat|
        (#[trigger] peg::run(rule_body(n.rule), s, n.start, trace, true, bound)).hit matches Some(h)
            && n.start + h.len == n.end;
    assert(bound == 0 ==> peg::run(rule(Rule::name), s, n.start, trace, true, bound).hit is None);
    lexemes::lemma_identifier(s, n.start, trace, bound);
}

/// A string stands where its node does.
proof fn lemma_string(s: Seq<u8>, n: Node)
    requires
        layout::laid_out(s, n),
        n.rule == Rule::string_literal,
    ensures
        lexemes::mark(s, n.start as int, '"'),
        locality::string_rest(s, n.start as int + 1) == Some((n.end - n.start - 1) as nat),
{
    let (trace, bound) = choose|trace: Trace, bound: nat|
        (#[trigger] peg::run(rule_body(n.rule), s, n.start, trace, true, bound)).hit matches Some(h)
            && n.start + h.len == n.end;
    locality::lemma_string(s, n.start, trace, bound);
}

/// What ends with a rule has that rule last.
proof fn lemma_ends_with(a: Expr, r: Rule, s: Seq<u8>, pos: int, end: int, ns: Seq<Node>)
    requires
        layout::laid(seq2(a, rule(r)), s, pos, end, ns),
    ensures
        ns.len() > 0,
        ns.last().rule == r,
        ns.last().end == end,
{
    let (k, mid) = choose|k: int, mid: int| #[trigger]
        layout::cut(k, mid) && 0 <= k <= ns.len() && layout::laid(a, s, pos, mid, ns.take(k))
            && layout::laid(rule(r), s, layout::behind(s, mid), end, ns.skip(k));
    layout::lemma_at_last(r, s, layout::behind(s, mid), end, ns, k);
}

/// A list of attributes stands between brackets.
proof fn lemma_attribute_section(s: Seq<u8>, n: Node)
    requires
        layout::laid_out(s, n),
        n.rule == Rule::attribute_section,
    ensures
        n.start < n.end,
        lexemes::mark(s, n.start as int, '['),
        list_ends(s, n.end as int),
{
    let x = opt(
        seq2(
            rule(Rule::attribute),
            many(seq2(rule(Rule::t_comma), rule(Rule::attribute))),
        ),
    );
    let ns = n.inner;
    let e = seq2(x, rule(Rule::t_rbracket));
    assert(ns.skip(0) =~= ns);
    layout::lemma_at_rule(Rule::t_lbracket, e, s, n.start as int, n.end as int, ns, 0);
    let rest = ns.skip(1);
    lemma_ends_with(
        x,
        Rule::t_rbracket,
        s,
        layout::behind(s, ns[0].end as int),
        n.end as int,
        rest,
    );
    assert(ns.last() == rest.last());
    assert(layout::laid_out(s, ns[0]) && layout::laid_out(s, ns[ns.len() - 1]));
    lemma_brackets(s, ns[0]);
    lemma_brackets(s, ns.last());
}

/// What follows an optional list of attributes.
proof fn lemma_attributes(first: Rule, e: Expr, s: Seq<u8>, n: Node) -> (pos: int)
    requires
        layout::laid_out(s, n),
        layout::laid(
            seq2(opt(rule(Rule::attribute_section)), seq2(rule(first), e)),
            s,
            n.start as int,
            n.end as int,
            n.inner,
        ),
        first != Rule::attribute_section,
    ensures
        after_attributes(s, n.start as int, pos),
        peg::blanks(s, pos) == 0,
        layout::laid(
            seq2(rule(first), e),
            s,
            pos,
            n.end as int,
            n.inner.skip(tree::attrs(n.inner)),
        ),
{
    let attr = rule(Rule::attribute_section);
    let ns = n.inner;
    let rest = seq2(rule(first), e);
    let start = n.start as int;
    let end = n.end as int;
    let (k, mid) = choose|k: int, mid: int| #[trigger]
        layout::cut(k, mid) && 0 <= k <= ns.len() && layout::laid(opt(attr), s, start, mid, ns.take(
            k,
        )) && layout::laid(rest, s, layout::behind(s, mid), end, ns.skip(k));
    reveal_with_fuel(layout::laid, 3);
    let pos = layout::behind(s, mid);
    layout::lemma_behind(s, mid);
    layout::lemma_at_rule(first, e, s, pos, end, ns, k);
    if ns.take(k).len() == 0 {
        assert(ns.skip(k) =~= ns.skip(0));
        assert(ns[0].rule == first);
    } else {
        assert(ns.take(k)[0] == ns[0]);
        assert(layout::laid_out(s, ns[0]));
        lemma_attribute_section(s, ns[0]);
        assert(list_ends(s, mid));
    }
    pos
}

proof fn lemma_module_written(m: Module, n: Node, s: Seq<u8>)
    requires
        vstd::utf8::valid_utf8(s),
        layout::laid_out(s, n),
        n.rule == Rule::module_stmt,
        syntax::is_module(m, n),
    ensures
        module_written(m, s),
{
    let ns = n.inner;
    let k = tree::attrs(ns);
    let end = n.end as int;
    let e1 = rule(Rule::t_semicolon);
    let e2 = seq2(rule(Rule::identifier), e1);
    let p = lemma_attributes(Rule::t_module, e2, s, n);
    layout::lemma_at_rule(Rule::t_module, e2, s, p, end, ns, k);
    let q = layout::behind(s, ns[k].end as int);
    layout::lemma_at_rule(Rule::identifier, e1, s, q, end, ns, k + 1);
    let r = layout::behind(s, ns[k + 1].end as int);
    layout::lemma_at_last(Rule::t_semicolon, s, r, end, ns, k + 2);
    reveal_strlit("module");
    assert("module"@ =~= seq!['m', 'o', 'd', 'u', 'l', 'e']);
    assert(layout::laid_out(s, ns[k]) && layout::laid_out(s, ns[k + 1]) && layout::laid_out(
        s,
        ns[k + 2],
    ));
    lemma_keyword("module", s, ns[k]);
    lemma_identifier(s, ns[k + 1]);
    lemma_semicolon(s, ns[k + 2]);
}

proof fn lemma_import_written(m: Import, n: Node, s: Seq<u8>)
    requires
        vstd::utf8::valid_utf8(s),
        layout::laid_out(s, n),
        n.rule == Rule::import_stmt,
        syntax::is_import(m, n),
    ensures
        import_written(m, s),
{
    let ns = n.inner;
    let k = tree::attrs(ns);
    let end = n.end as int;
    let e1 = rule(Rule::t_semicolon);
    let e2 = seq2(rule(Rule::string_literal), e1);
    let p = lemma_attributes(Rule::t_import, e2, s, n);
    layout::lemma_at_rule(Rule::t_import, e2, s, p, end, ns, k);
    let q = layout::behind(s, ns[k].end as int);
    layout::lemma_at_rule(Rule::string_literal, e1, s, q, end, ns, k + 1);
    let r = layout::behind(s, ns[k + 1].end as int);
    layout::lemma_at_last(Rule::t_semicolon, s, r, end, ns, k + 2);
    reveal_strlit("import");
    assert("import"@ =~= seq!['i', 'm', 'p', 'o', 'r', 't']);
    assert(layout::laid_out(s, ns[k]) && layout::laid_out(s, ns[k + 1]) && layout::laid_out(
        s,
        ns[k + 2],
    ));
    lemma_keyword("import", s, ns[k]);
    lemma_string(s, ns[k + 1]);
    lemma_semicolon(s, ns[k + 2]);
}

/// Whether a type stands at `typ`, without the mark of a nullable type, and something goes on at
/// `next` behind it and behind that mark if there is one.
pub open spec fn type_then(s: Seq<u8>, typ: Range, next: int) -> bool {
    &&& typ.start < typ.end <= s.len()
    &&& !lexemes::mark(s, typ.end - 1, '?')
    &&& next == layout::behind(s, typ.end as int) || joined_by(s, typ.end as int, '?', next)
}

/// Whether the name at `name` is one.
pub open spec fn is_name_at(s: Seq<u8>, name: Range) -> bool {
    lexemes::is_name(s, name.start as int, name.end as int)
}

/// How a constant is written.
pub open spec fn const_written(c: Const, s: Seq<u8>) -> bool {
    &&& introduced(s, c.range.start as int, seq!['c', 'o', 'n', 's', 't'], c.typ.start as int)
    &&& type_then(s, c.typ, c.name.start as int)
    &&& is_name_at(s, c.name)
    &&& joined_by(s, c.name.end as int, '=', c.value.start as int)
    &&& closed(s, c.value.end as int, c.range.end as int)
}

/// What stands behind the first of two parts.
proof fn lemma_tail(a: Expr, b: Expr, s: Seq<u8>, pos: int, end: int, ns: Seq<Node>) -> (r: (
    int,
    int,
))
    requires
        layout::laid(seq2(a, b), s, pos, end, ns),
    ensures
        0 <= r.0 <= ns.len(),
        layout::laid(b, s, r.1, end, ns.skip(r.0)),
{
    let (k, mid) = choose|k: int, mid: int| #[trigger]
        layout::cut(k, mid) && 0 <= k <= ns.len() && layout::laid(a, s, pos, mid, ns.take(k))
            && layout::laid(b, s, layout::behind(s, mid), end, ns.skip(k));
    (k, layout::behind(s, mid))
}

/// What ends with a rule behind three other parts has that rule last.
proof fn lemma_ends_after_three(
    a: Expr,
    b: Expr,
    c: Expr,
    r: Rule,
    s: Seq<u8>,
    pos: int,
    end: int,
    ns: Seq<Node>,
)
    requires
        layout::laid(seq4(a, b, c, rule(r)), s, pos, end, ns),
    ensures
        ns.len() > 0,
        ns.last().rule == r,
        ns.last().end == end,
{
    let t = lemma_tail(a, seq3(b, c, rule(r)), s, pos, end, ns);
    let xs = ns.skip(t.0);
    let u = lemma_tail(b, seq2(c, rule(r)), s, t.1, end, xs);
    let ys = xs.skip(u.0);
    lemma_ends_with(c, r, s, u.1, end, ys);
    assert(ys.last() == ns.last());
}

/// The closing angle bracket and the ampersand.
proof fn lemma_type_signs(s: Seq<u8>, n: Node)
    requires
        layout::laid_out(s, n),
    ensures
        n.rule == Rule::t_ranglebracket ==> lexemes::mark(s, n.end - 1, '>') && n.start < n.end,
        n.rule == Rule::t_amp ==> lexemes::mark(s, n.end - 1, '&') && n.start < n.end,
{
    reveal_strlit(">");
    reveal_strlit("&");
    assert(">"@ =~= seq!['>']);
    assert("&"@ =~= seq!['&']);
    match n.rule {
        Rule::t_ranglebracket => lemma_sign(">", '>', s, n),
        Rule::t_amp => lemma_sign("&", '&', s, n),
        _ => {},
    }
}

/// A match of a word ends with the last character of it.
proof fn lemma_word_end(w: &'static str, s: Seq<u8>, pos: nat, trace: Trace, bound: nat)
    requires
        vstd::utf8::is_ascii_chars(w@),
        w@.len() > 0,
        w@.last() != '?',
    ensures
        peg::run(Expr::Keyword(w), s, pos, trace, true, bound).hit matches Some(h) ==> h.len > 0
            && !lexemes::mark(s, pos + h.len - 1, '?'),
        peg::run(Expr::Keyword(w), s, pos, trace, true, bound).trace == trace,
{
    if peg::stands_at(text::utf8(w@), s, pos as int) {
        lemma_ascii_word(w@, s, pos as int);
        assert(s[pos + (w@.len() - 1)] == w@[w@.len() - 1] as u32);
    }
}

proof fn lemma_numeric_words()
    ensures
        vstd::utf8::is_ascii_chars("bool"@) && "bool"@.len() > 0 && "bool"@.last() != '?',
        vstd::utf8::is_ascii_chars("int8"@) && "int8"@.len() > 0 && "int8"@.last() != '?',
        vstd::utf8::is_ascii_chars("uint8"@) && "uint8"@.len() > 0 && "uint8"@.last() != '?',
        vstd::utf8::is_ascii_chars("int16"@) && "int16"@.len() > 0 && "int16"@.last() != '?',
        vstd::utf8::is_ascii_chars("uint16"@) && "uint16"@.len() > 0 && "uint16"@.last() != '?',
        vstd::utf8::is_ascii_chars("int32"@) && "int32"@.len() > 0 && "int32"@.last() != '?',
        vstd::utf8::is_ascii_chars("uint32"@) && "uint32"@.len() > 0 && "uint32"@.last() != '?',
        vstd::utf8::is_ascii_chars("int64"@) && "int64"@.len() > 0 && "int64"@.last() != '?',
        vstd::utf8::is_ascii_chars("uint64"@) && "uint64"@.len() > 0 && "uint64"@.last() != '?',
        vstd::utf8::is_ascii_chars("float"@) && "float"@.len() > 0 && "float"@.last() != '?',
        vstd::utf8::is_ascii_chars("double"@) && "double"@.len() > 0 && "double"@.last() != '?',
{
    reveal_strlit("bool");
    reveal_strlit("int8");
    reveal_strlit("uint8");
    reveal_strlit("int16");
    reveal_strlit("uint16");
    reveal_strlit("int32");
    reveal_strlit("uint32");
    reveal_strlit("int64");
    reveal_strlit("uint64");
    reveal_strlit("float");
    reveal_strlit("double");
}

/// Whether a match of `e` as a whole ends with something else than a question mark.
spec fn ends_plainly(e: Expr, s: Seq<u8>, pos: nat, trace: Trace, bound: nat) -> bool {
    peg::run(e, s, pos, trace, true, bound).hit matches Some(h) ==> h.len > 0 && !lexemes::mark(
        s,
        pos + h.len - 1,
        '?',
    )
}

proof fn lemma_or_end(a: &'static str, b: Expr, s: Seq<u8>, pos: nat, trace: Trace, bound: nat)
    requires
        vstd::utf8::is_ascii_chars(a@),
        a@.len() > 0,
        a@.last() != '?',
        ends_plainly(b, s, pos, trace, bound),
    ensures
        ends_plainly(or2(keyword(a), b), s, pos, trace, bound),
{
    lemma_word_end(a, s, pos, trace, bound);
}

/// A numeric type does not end with a question mark.
proof fn lemma_numeric_end(s: Seq<u8>, n: Node)
    requires
        layout::laid_out(s, n),
        n.rule == Rule::numeric_type,
    ensures
        n.start < n.end,
        !lexemes::mark(s, n.end - 1, '?'),
{
    let (trace, bound) = choose|trace: Trace, bound: nat|
        (#[trigger] peg::run(rule_body(n.rule), s, n.start, trace, true, bound)).hit matches Some(h)
            && n.start + h.len == n.end;
    lemma_numeric_words();
    let p = n.start;
    lemma_word_end("double", s, p, trace, bound);
    let e0 = keyword("double");
    let e1 = or2(keyword("float"), e0);
    let e2 = or2(keyword("uint64"), e1);
    let e3 = or2(keyword("int64"), e2);
    let e4 = or2(keyword("uint32"), e3);
    let e5 = or2(keyword("int32"), e4);
    let e6 = or2(keyword("uint16"), e5);
    let e7 = or2(keyword("int16"), e6);
    let e8 = or2(keyword("uint8"), e7);
    let e9 = or2(keyword("int8"), e8);
    lemma_or_end("float", e0, s, p, trace, bound);
    lemma_or_end("uint64", e1, s, p, trace, bound);
    lemma_or_end("int64", e2, s, p, trace, bound);
    lemma_or_end("uint32", e3, s, p, trace, bound);
    lemma_or_end("int32", e4, s, p, trace, bound);
    lemma_or_end("uint16", e5, s, p, trace, bound);
    lemma_or_end("int16", e6, s, p, trace, bound);
    lemma_or_end("uint8", e7, s, p, trace, bound);
    lemma_or_end("int8", e8, s, p, trace, bound);
    lemma_or_end("bool", e9, s, p, trace, bound);
    assert(rule_body(Rule::numeric_type) == or2(keyword("bool"), e9));
}

/// A simple type does not end with a question mark.
proof fn lemma_basic_type_end(s: Seq<u8>, n: Node)
    requires
        vstd::utf8::valid_utf8(s),
        layout::laid_out(s, n),
        n.rule == Rule::basic_typename,
    ensures
        n.start < n.end,
        !lexemes::mark(s, n.end - 1, '?'),
{
    reveal_with_fuel(layout::laid, 6);
    let x = n.inner[0];
    assert(n.inner.len() == 1 && x.start == n.start && x.end == n.end);
    assert(layout::laid_out(s, x));
    let ns = x.inner;
    let from = x.start as int;
    let to = x.end as int;
    match x.rule {
        Rule::handle_type => {
            if ns.len() == 1 && ns[0].rule == Rule::t_handle && ns[0].end == x.end {
                assert(layout::laid_out(s, ns[0]));
                reveal_strlit("handle");
                lemma_keyword("handle", s, ns[0]);
                assert(ns[0].start == x.start);
                assert(s[from + 5] == "handle"@[5] as u32);
            } else {
                lemma_ends_after_three(
                    rule(Rule::t_handle),
                    rule(Rule::t_langlebracket),
                    rule(Rule::specific_handle_type),
                    Rule::t_ranglebracket,
                    s,
                    from,
                    to,
                    ns,
                );
                assert(layout::laid_out(s, ns[ns.len() - 1]));
                lemma_type_signs(s, ns.last());
            }
        },
        Rule::pending_type => {
            lemma_ends_after_three(
                or4(
                    keyword("pending_remote"),
                    keyword("pending_receiver"),
                    keyword("pending_associated_remote"),
                    keyword("pending_associated_receiver"),
                ),
                rule(Rule::t_langlebracket),
                rule(Rule::identifier),
                Rule::t_ranglebracket,
                s,
                from,
                to,
                ns,
            );
            assert(layout::laid_out(s, ns[ns.len() - 1]));
            lemma_type_signs(s, ns.last());
        },
        Rule::associated_type => {
            lemma_ends_with(rule(Rule::t_associated), Rule::identifier, s, from, to, ns);
            assert(layout::laid_out(s, ns[ns.len() - 1]));
            lemma_identifier(s, ns.last());
        },
        Rule::numeric_type => lemma_numeric_end(s, x),
        _ => lemma_identifier(s, x),
    }
}

/// A type does not end with a question mark.
proof fn lemma_type_end(s: Seq<u8>, n: Node)
    requires
        vstd::utf8::valid_utf8(s),
        layout::laid_out(s, n),
        n.rule == Rule::typename,
    ensures
        n.start < n.end,
        !lexemes::mark(s, n.end - 1, '?'),
{
    reveal_with_fuel(layout::laid, 5);
    let x = n.inner[0];
    assert(n.inner.len() == 1 && x.start == n.start && x.end == n.end);
    assert(layout::laid_out(s, x));
    let ns = x.inner;
    let from = x.start as int;
    let to = x.end as int;
    match x.rule {
        Rule::array => {
            let b = rule(Rule::t_langlebracket);
            let c = rule(Rule::type_spec);
            let d = opt(seq2(rule(Rule::t_comma), rule(Rule::integer)));
            let t = lemma_tail(
                rule(Rule::t_array),
                seq4(b, c, d, rule(Rule::t_ranglebracket)),
                s,
                from,
                to,
                ns,
            );
            let xs = ns.skip(t.0);
            lemma_ends_after_three(b, c, d, Rule::t_ranglebracket, s, t.1, to, xs);
            assert(xs.last() == ns.last());
            assert(layout::laid_out(s, ns[ns.len() - 1]));
            lemma_type_signs(s, ns.last());
        },
        Rule::map => {
            let b = rule(Rule::t_langlebracket);
            let c = rule(Rule::identifier);
            let d = rule(Rule::t_comma);
            let e = seq2(rule(Rule::type_spec), rule(Rule::t_ranglebracket));
            let t = lemma_tail(rule(Rule::t_map), seq4(b, c, d, e), s, from, to, ns);
            let xs = ns.skip(t.0);
            let u = lemma_tail(b, seq3(c, d, e), s, t.1, to, xs);
            let ys = xs.skip(u.0);
            lemma_ends_after_three(
                c,
                d,
                rule(Rule::type_spec),
                Rule::t_ranglebracket,
                s,
                u.1,
                to,
                ys,
            );
            assert(ys.last() == ns.last());
            assert(layout::laid_out(s, ns[ns.len() - 1]));
            lemma_type_signs(s, ns.last());
        },
        Rule::interface_request => {
            lemma_ends_with(rule(Rule::basic_typename), Rule::t_amp, s, from, to, ns);
            assert(layout::laid_out(s, ns[ns.len() - 1]));
            lemma_type_signs(s, ns.last());
        },
        _ => lemma_basic_type_end(s, x),
    }
}

/// The type at the front of `e` and what follows it.
proof fn lemma_type(e: Expr, s: Seq<u8>, pos: int, end: int, ns: Seq<Node>, i: int, typ: Range)
    requires
        vstd::utf8::valid_utf8(s),
        0 <= i <= ns.len(),
        layout::laid(seq2(rule(Rule::type_spec), e), s, pos, end, ns.skip(i)),
        layout::all_laid_out(s, ns),
        typ.is_of(ns[i].inner[0]),
    ensures
        i < ns.len(),
        ns[i].rule == Rule::type_spec,
        typ.start == pos,
        ({
            let next = layout::behind(s, ns[i].end as int);
            &&& type_then(s, typ, next)
            &&& layout::laid(e, s, next, end, ns.skip(i + 1))
            &&& peg::blanks(s, next) == 0
        }),
{
    layout::lemma_at_rule(Rule::type_spec, e, s, pos, end, ns, i);
    let n = ns[i];
    assert(layout::laid_out(s, n));
    let xs = n.inner;
    assert(xs.skip(0) =~= xs);
    let mark = rule(Rule::t_nullable);
    layout::lemma_at_rule(Rule::typename, opt(mark), s, n.start as int, n.end as int, xs, 0);
    assert(layout::laid_out(s, xs[0]));
    lemma_type_end(s, xs[0]);
    let q = layout::behind(s, xs[0].end as int);
    if xs.len() == 1 {
        assert(xs.skip(1).len() == 0);
        assert(!layout::laid(mark, s, q, n.end as int, xs.skip(1)));
        assert(n.end == q);
    } else {
        assert(layout::laid(mark, s, q, n.end as int, xs.skip(1)));
        layout::lemma_at_last(Rule::t_nullable, s, q, n.end as int, xs, 1);
        assert(layout::laid_out(s, xs[1]));
        lemma_marks_nullable(s, xs[1]);
    }
}

proof fn lemma_const_written(m: Const, n: Node, s: Seq<u8>)
    requires
        vstd::utf8::valid_utf8(s),
        layout::laid_out(s, n),
        n.rule == Rule::const_stmt,
        syntax::is_const(m, n),
    ensures
        const_written(m, s),
{
    let ns = n.inner;
    let k = tree::attrs(ns);
    let end = n.end as int;
    let e1 = rule(Rule::t_semicolon);
    let e2 = seq2(rule(Rule::constant), e1);
    let e3 = seq2(rule(Rule::t_equal), e2);
    let e4 = seq2(rule(Rule::name), e3);
    let e5 = seq2(rule(Rule::type_spec), e4);
    let p = lemma_attributes(Rule::t_const, e5, s, n);
    layout::lemma_at_rule(Rule::t_const, e5, s, p, end, ns, k);
    let p1 = layout::behind(s, ns[k].end as int);
    lemma_type(e4, s, p1, end, ns, k + 1, m.typ);
    let p2 = layout::behind(s, ns[k + 1].end as int);
    layout::lemma_at_rule(Rule::name, e3, s, p2, end, ns, k + 2);
    let p3 = layout::behind(s, ns[k + 2].end as int);
    layout::lemma_at_rule(Rule::t_equal, e2, s, p3, end, ns, k + 3);
    let p4 = layout::behind(s, ns[k + 3].end as int);
    layout::lemma_at_rule(Rule::constant, e1, s, p4, end, ns, k + 4);
    let p5 = layout::behind(s, ns[k + 4].end as int);
    layout::lemma_at_last(Rule::t_semicolon, s, p5, end, ns, k + 5);
    reveal_strlit("const");
    assert("const"@ =~= seq!['c', 'o', 'n', 's', 't']);
    assert(layout::laid_out(s, ns[k]) && layout::laid_out(s, ns[k + 2]) && layout::laid_out(
        s,
        ns[k + 3],
    ) && layout::laid_out(s, ns[k + 5]));
    lemma_keyword("const", s, ns[k]);
    lemma_name(s, ns[k + 2]);
    lemma_equal(s, ns[k + 3]);
    lemma_semicolon(s, ns[k + 5]);
}

/// Whether the parts `rs` come behind one that ends at `end`, each behind a comma, and then
/// something at `close`, behind a comma too if there may be one more.
pub open spec fn comma_follows(
    s: Seq<u8>,
    end: int,
    rs: Seq<Range>,
    close: int,
    one_more: bool,
) -> bool
    decreases rs.len(),
{
    if rs.len() == 0 {
        close == layout::behind(s, end) || (one_more && joined_by(s, end, ',', close))
    } else {
        joined_by(s, end, ',', rs[0].start as int) && comma_follows(
            s,
            rs[0].end as int,
            rs.skip(1),
            close,
            one_more,
        )
    }
}

/// Whether the parts `rs`, with commas between them, are all that stands between the sign at
/// `open` and `close`.
pub open spec fn listed(
    s: Seq<u8>,
    open: int,
    rs: Seq<Range>,
    close: int,
    one_more: bool,
) -> bool {
    if rs.len() == 0 {
        close == layout::behind(s, open + 1)
    } else {
        rs[0].start == layout::behind(s, open + 1) && comma_follows(
            s,
            rs[0].end as int,
            rs.skip(1),
            close,
            one_more,
        )
    }
}

/// Whether the parts `rs`, one behind the other, are all that stands between `end` and `close`.
pub open spec fn row_follows(s: Seq<u8>, end: int, rs: Seq<Range>, close: int) -> bool
    decreases rs.len(),
{
    if rs.len() == 0 {
        close == layout::behind(s, end)
    } else {
        rs[0].start == layout::behind(s, end) && row_follows(
            s,
            rs[0].end as int,
            rs.skip(1),
            close,
        )
    }
}

/// Whether `rs` are the ranges of `ns`, one by one.
spec fn are_of(rs: Seq<Range>, ns: Seq<Node>) -> bool {
    rs.len() == ns.len() && forall|i: int| 0 <= i < rs.len() ==> (#[trigger] rs[i]).is_of(ns[i])
}

/// Two parts and a third one are the first part, and the second and the third.
proof fn lemma_assoc(a: Expr, b: Expr, c: Expr, s: Seq<u8>, pos: int, end: int, ns: Seq<Node>)
    requires
        layout::laid(seq2(seq2(a, b), c), s, pos, end, ns),
    ensures
        layout::laid(seq2(a, seq2(b, c)), s, pos, end, ns),
{
    let (k, mid) = choose|k: int, mid: int| #[trigger]
        layout::cut(k, mid) && 0 <= k <= ns.len() && layout::laid(
            seq2(a, b),
            s,
            pos,
            mid,
            ns.take(k),
        ) && layout::laid(c, s, layout::behind(s, mid), end, ns.skip(k));
    let xs = ns.take(k);
    let (j, m) = choose|j: int, m: int| #[trigger]
        layout::cut(j, m) && 0 <= j <= xs.len() && layout::laid(a, s, pos, m, xs.take(j))
            && layout::laid(b, s, layout::behind(s, m), mid, xs.skip(j));
    let rest = ns.skip(j);
    assert(xs.take(j) =~= ns.take(j));
    assert(rest.take(k - j) =~= xs.skip(j));
    assert(rest.skip(k - j) =~= ns.skip(k));
    assert(layout::cut(k - j, mid));
    assert(layout::laid(seq2(b, c), s, layout::behind(s, m), end, rest));
    assert(layout::cut(j, m));
}

/// What ends a list: `b`, behind a comma if there may be one more.
spec fn list_tail(b: Rule, one_more: bool) -> Expr {
    if one_more {
        seq2(opt(rule(Rule::t_comma)), rule(b))
    } else {
        rule(b)
    }
}

/// Where nothing of the rule `x` follows nothing is picked.
proof fn lemma_nothing_picked(ns: Seq<Node>, x: Rule, i: int)
    requires
        0 <= i <= ns.len(),
        forall|q: int| i <= q < ns.len() ==> (#[trigger] ns[q]).rule != x,
    ensures
        syntax::picked(ns.skip(i), x).len() == 0,
    decreases ns.len() - i,
{
    if i < ns.len() {
        syntax::lemma_picked_step(ns, x, i);
        lemma_nothing_picked(ns, x, i + 1);
    }
}

/// What follows the first part of a list.
proof fn lemma_comma_follows(
    x: Rule,
    b: Rule,
    one_more: bool,
    s: Seq<u8>,
    before: int,
    end: int,
    ns: Seq<Node>,
    i: int,
    rs: Seq<Range>,
)
    requires
        0 <= before <= s.len(),
        0 <= i <= ns.len(),
        x == Rule::parameter || x == Rule::enum_value,
        b == Rule::t_rparen || b == Rule::t_rbrace,
        layout::all_laid_out(s, ns),
        layout::laid(
            seq2(many(seq2(rule(Rule::t_comma), rule(x))), list_tail(b, one_more)),
            s,
            layout::behind(s, before),
            end,
            ns.skip(i),
        ),
        are_of(rs, syntax::picked(ns.skip(i), x)),
    ensures
        ns.len() > 0,
        ns.last().rule == b,
        ns.last().end == end,
        comma_follows(s, before, rs, ns.last().start as int, one_more),
    decreases ns.len() - i,
{
    let comma = rule(Rule::t_comma);
    let item = seq2(comma, rule(x));
    let e = list_tail(b, one_more);
    let pos = layout::behind(s, before);
    layout::lemma_behind(s, before);
    reveal_with_fuel(ranks::can_be_empty, 3);
    layout::lemma_at_many(item, e, s, pos, end, ns.skip(i));
    if layout::laid(e, s, pos, end, ns.skip(i)) {
        if one_more {
            layout::lemma_at_opt(comma, rule(b), s, pos, end, ns.skip(i));
            if layout::laid(rule(b), s, pos, end, ns.skip(i)) {
                layout::lemma_at_last(b, s, pos, end, ns, i);
            } else {
                layout::lemma_at_rule(Rule::t_comma, rule(b), s, pos, end, ns, i);
                let q = layout::behind(s, ns[i].end as int);
                layout::lemma_at_last(b, s, q, end, ns, i + 1);
                assert(layout::laid_out(s, ns[i]));
                lemma_comma(s, ns[i]);
            }
        } else {
            layout::lemma_at_last(b, s, pos, end, ns, i);
        }
        lemma_nothing_picked(ns, x, i);
    } else {
        let again = seq2(many(item), e);
        lemma_assoc(comma, rule(x), again, s, pos, end, ns.skip(i));
        layout::lemma_at_rule(Rule::t_comma, seq2(rule(x), again), s, pos, end, ns, i);
        let q = layout::behind(s, ns[i].end as int);
        layout::lemma_at_rule(x, again, s, q, end, ns, i + 1);
        assert(layout::laid_out(s, ns[i]));
        lemma_comma(s, ns[i]);
        syntax::lemma_picked_step(ns, x, i);
        syntax::lemma_picked_step(ns, x, i + 1);
        let all = syntax::picked(ns.skip(i), x);
        let rest = syntax::picked(ns.skip(i + 2), x);
        assert(all =~= seq![ns[i + 1]] + rest);
        assert(rs[0].is_of(all[0]));
        assert forall|j: int| 0 <= j < rest.len() implies (#[trigger] rs.skip(1)[j]).is_of(
            rest[j],
        ) by {
            assert(rs[j + 1].is_of(all[j + 1]));
        }
        lemma_comma_follows(
            x,
            b,
            one_more,
            s,
            ns[i + 1].end as int,
            end,
            ns,
            i + 2,
            rs.skip(1),
        );
    }
}

/// What follows the sign in front of a list.
proof fn lemma_listed(
    x: Rule,
    b: Rule,
    one_more: bool,
    s: Seq<u8>,
    open: Node,
    end: int,
    ns: Seq<Node>,
    rs: Seq<Range>,
)
    requires
        ns.len() > 0,
        ns[0] == open,
        open.end == open.start + 1 <= s.len(),
        open.rule != x,
        x == Rule::parameter || x == Rule::enum_value,
        b == Rule::t_rparen || b == Rule::t_rbrace,
        layout::all_laid_out(s, ns),
        ({
            let again = many(seq2(rule(Rule::t_comma), rule(x)));
            let pos = layout::behind(s, open.end as int);
            layout::laid(rule(b), s, pos, end, ns.skip(1)) || layout::laid(
                seq2(rule(x), seq2(again, list_tail(b, one_more))),
                s,
                pos,
                end,
                ns.skip(1),
            )
        }),
        are_of(rs, syntax::picked(ns, x)),
    ensures
        ns.last().rule == b,
        ns.last().end == end,
        listed(s, open.start as int, rs, ns.last().start as int, one_more),
{
    let again = many(seq2(rule(Rule::t_comma), rule(x)));
    let pos = layout::behind(s, open.end as int);
    assert(ns.skip(0) =~= ns);
    syntax::lemma_picked_step(ns, x, 0);
    if layout::laid(rule(b), s, pos, end, ns.skip(1)) {
        layout::lemma_at_last(b, s, pos, end, ns, 1);
        lemma_nothing_picked(ns, x, 1);
    } else {
        layout::lemma_at_rule(x, seq2(again, list_tail(b, one_more)), s, pos, end, ns, 1);
        syntax::lemma_picked_step(ns, x, 1);
        let all = syntax::picked(ns, x);
        let rest = syntax::picked(ns.skip(2), x);
        assert(all =~= seq![ns[1]] + rest);
        assert(rs[0].is_of(all[0]));
        assert forall|j: int| 0 <= j < rest.len() implies (#[trigger] rs.skip(1)[j]).is_of(
            rest[j],
        ) by {
            assert(rs[j + 1].is_of(all[j + 1]));
        }
        assert(layout::laid_out(s, ns[1]));
        lemma_comma_follows(x, b, one_more, s, ns[1].end as int, end, ns, 2, rs.skip(1));
    }
}

/// How a value of an enum is written.
pub open spec fn enum_value_written(v: EnumValue, s: Seq<u8>) -> bool {
    &&& after_attributes(s, v.range.start as int, v.name.start as int)
    &&& is_name_at(s, v.name)
    &&& match v.value {
        Some(value) => joined_by(s, v.name.end as int, '=', value.start as int) && value.start
            < value.end && value.end == v.range.end,
        None => v.range.end == layout::behind(s, v.name.end as int),
    }
}

/// The ranges of values.
pub open spec fn value_ranges(vs: Seq<EnumValue>) -> Seq<Range> {
    Seq::new(vs.len(), |i: int| vs[i].range)
}

/// Whether the values of an enum, with commas between them, stand in braces behind its name.
pub open spec fn values_written(e: Enum, s: Seq<u8>) -> bool {
    let open = layout::behind(s, e.name.end as int);
    lexemes::mark(s, open, '{') && exists|close: int| #[trigger]
        lexemes::mark(s, close, '}') && listed(s, open, value_ranges(e.values@), close, true)
            && closed(s, close + 1, e.range.end as int)
}

/// How an enum is written.
pub open spec fn enum_written(e: Enum, s: Seq<u8>) -> bool {
    &&& introduced(s, e.range.start as int, seq!['e', 'n', 'u', 'm'], e.name.start as int)
    &&& is_name_at(s, e.name)
    &&& (e.values@.len() == 0 && closed(s, e.name.end as int, e.range.end as int))
        || values_written(e, s)
    &&& forall|i: int| 0 <= i < e.values@.len() ==> enum_value_written(#[trigger] e.values@[i], s)
}

proof fn lemma_enum_value_written(m: EnumValue, n: Node, s: Seq<u8>)
    requires
        vstd::utf8::valid_utf8(s),
        layout::laid_out(s, n),
        tree::well_formed(n),
        n.rule == Rule::enum_value,
        syntax::is_enum_value(m, n),
    ensures
        enum_value_written(m, s),
{
    let ns = n.inner;
    let k = tree::attrs(ns);
    let end = n.end as int;
    let value = or2(rule(Rule::integer), rule(Rule::identifier));
    let e1 = seq2(rule(Rule::t_equal), value);
    syntax::lemma_enum_value(n);
    let p = lemma_attributes(Rule::name, opt(e1), s, n);
    layout::lemma_at_rule(Rule::name, opt(e1), s, p, end, ns, k);
    assert(layout::laid_out(s, ns[k]));
    lemma_name(s, ns[k]);
    let q = layout::behind(s, ns[k].end as int);
    if ns.len() == k + 1 {
        assert(ns.skip(k + 1).len() == 0);
        if layout::laid(e1, s, q, end, ns.skip(k + 1)) {
            layout::lemma_at_rule(Rule::t_equal, value, s, q, end, ns, k + 1);
        }
    } else {
        layout::lemma_at_rule(Rule::t_equal, value, s, q, end, ns, k + 1);
        let r = layout::behind(s, ns[k + 1].end as int);
        let x = ns.skip(k + 2);
        assert(layout::laid(rule(Rule::integer), s, r, end, x) || layout::laid(
            rule(Rule::identifier),
            s,
            r,
            end,
            x,
        ));
        assert(x[0] == ns[k + 2]);
        assert(layout::laid_out(s, ns[k + 1]) && layout::laid_out(s, ns[k + 2]));
        lemma_equal(s, ns[k + 1]);
    }
}

/// The first word of an enum, behind its attributes if it has any.
proof fn lemma_enum_head(e: Expr, s: Seq<u8>, n: Node) -> (pos: int)
    requires
        layout::laid_out(s, n),
        layout::laid(
            seq2(
                opt(rule(Rule::attribute_section)),
                seq2(keyword("enum"), seq2(rule(Rule::name), e)),
            ),
            s,
            n.start as int,
            n.end as int,
            n.inner,
        ),
    ensures
        introduced(s, n.start as int, seq!['e', 'n', 'u', 'm'], pos),
        peg::blanks(s, pos) == 0,
        layout::laid(
            seq2(rule(Rule::name), e),
            s,
            pos,
            n.end as int,
            n.inner.skip(tree::attrs(n.inner)),
        ),
{
    let attr = rule(Rule::attribute_section);
    let ns = n.inner;
    let rest = seq2(keyword("enum"), seq2(rule(Rule::name), e));
    let start = n.start as int;
    let end = n.end as int;
    let (k, mid) = choose|k: int, mid: int| #[trigger]
        layout::cut(k, mid) && 0 <= k <= ns.len() && layout::laid(opt(attr), s, start, mid, ns.take(
            k,
        )) && layout::laid(rest, s, layout::behind(s, mid), end, ns.skip(k));
    reveal_with_fuel(layout::laid, 3);
    let p = layout::behind(s, mid);
    layout::lemma_behind(s, mid);
    layout::lemma_at_keyword("enum", seq2(rule(Rule::name), e), s, p, end, ns.skip(k));
    reveal_strlit("enum");
    assert("enum"@ =~= seq!['e', 'n', 'u', 'm']);
    lemma_ascii_word("enum"@, s, p);
    let pos = layout::behind(s, p + 4);
    layout::lemma_at_rule(Rule::name, e, s, pos, end, ns, k);
    assert(whole_word(s, p, seq!['e', 'n', 'u', 'm']));
    if ns.take(k).len() == 0 {
        assert(ns.skip(k) =~= ns.skip(0));
        assert(ns[0].rule == Rule::name);
    } else {
        assert(ns.take(k)[0] == ns[0]);
        assert(layout::laid_out(s, ns[0]));
        lemma_attribute_section(s, ns[0]);
        assert(list_ends(s, mid));
    }
    pos
}

proof fn lemma_enum_written(m: Enum, n: Node, s: Seq<u8>)
    requires
        vstd::utf8::valid_utf8(s),
        layout::laid_out(s, n),
        tree::well_formed(n),
        n.rule == Rule::enum_stmt,
        syntax::is_enum(m, n),
    ensures
        enum_written(m, s),
{
    let ns = n.inner;
    let k = tree::attrs(ns);
    let end = n.end as int;
    let semi = rule(Rule::t_semicolon);
    let block = rule(Rule::enum_block);
    let e1 = seq2(opt(block), semi);
    syntax::lemma_enum(n);
    let p = lemma_enum_head(e1, s, n);
    layout::lemma_at_rule(Rule::name, e1, s, p, end, ns, k);
    assert(layout::laid_out(s, ns[k]));
    lemma_name(s, ns[k]);
    let q = layout::behind(s, ns[k].end as int);
    layout::lemma_at_opt(block, semi, s, q, end, ns.skip(k + 1));
    if layout::laid(semi, s, q, end, ns.skip(k + 1)) {
        layout::lemma_at_last(Rule::t_semicolon, s, q, end, ns, k + 1);
        assert(layout::laid_out(s, ns[k + 1]));
        lemma_semicolon(s, ns[k + 1]);
    } else {
        layout::lemma_at_rule(Rule::enum_block, semi, s, q, end, ns, k + 1);
        let r = layout::behind(s, ns[k + 1].end as int);
        layout::lemma_at_last(Rule::t_semicolon, s, r, end, ns, k + 2);
        assert(layout::laid_out(s, ns[k + 1]) && layout::laid_out(s, ns[k + 2]));
        lemma_semicolon(s, ns[k + 2]);
        lemma_enum_block_written(m.values@, ns[k + 1], s);
        let close = ns[k + 1].inner.last().start as int;
        assert(lexemes::mark(s, close, '}'));
    }
}

proof fn lemma_enum_block_written(vs: Seq<EnumValue>, n: Node, s: Seq<u8>)
    requires
        vstd::utf8::valid_utf8(s),
        layout::laid_out(s, n),
        tree::well_formed(n),
        n.rule == Rule::enum_block,
        syntax::are_enum_values(vs, syntax::picked(n.inner, Rule::enum_value)),
    ensures
        n.inner.len() > 0,
        lexemes::mark(s, n.start as int, '{'),
        lexemes::mark(s, n.inner.last().start as int, '}'),
        n.end == n.inner.last().start + 1,
        listed(s, n.start as int, value_ranges(vs), n.inner.last().start as int, true),
        forall|i: int| 0 <= i < vs.len() ==> enum_value_written(#[trigger] vs[i], s),
{
    let ns = n.inner;
    let end = n.end as int;
    let item = rule(Rule::enum_value);
    let comma = rule(Rule::t_comma);
    let again = many(seq2(comma, item));
    let last = rule(Rule::t_rbrace);
    let x = seq3(item, again, opt(comma));
    assert(ns.skip(0) =~= ns);
    layout::lemma_at_rule(Rule::t_lbrace, seq2(opt(x), last), s, n.start as int, end, ns, 0);
    assert(layout::laid_out(s, ns[0]));
    lemma_brackets(s, ns[0]);
    let p = layout::behind(s, ns[0].end as int);
    layout::lemma_at_opt(x, last, s, p, end, ns.skip(1));
    if !layout::laid(last, s, p, end, ns.skip(1)) {
        let rest = seq2(again, opt(comma));
        lemma_assoc(item, rest, last, s, p, end, ns.skip(1));
        layout::lemma_at_rule(Rule::enum_value, seq2(rest, last), s, p, end, ns, 1);
        let q = layout::behind(s, ns[1].end as int);
        lemma_assoc(again, opt(comma), last, s, q, end, ns.skip(2));
        assert(layout::laid_out(s, ns[1]));
        lemma_put_back(Rule::enum_value, seq2(again, seq2(opt(comma), last)), s, p, end, ns, 1);
    }
    let ps = syntax::picked(ns, Rule::enum_value);
    let rs = value_ranges(vs);
    assert forall|i: int| 0 <= i < rs.len() implies (#[trigger] rs[i]).is_of(ps[i]) by {
        assert(syntax::is_enum_value(vs[i], ps[i]));
    }
    lemma_listed(Rule::enum_value, Rule::t_rbrace, true, s, ns[0], end, ns, rs);
    assert(layout::laid_out(s, ns[ns.len() - 1]));
    lemma_brackets(s, ns.last());
    assert forall|i: int| 0 <= i < vs.len() implies enum_value_written(#[trigger] vs[i], s) by {
        let j = fits::lemma_picked_from(ns, Rule::enum_value, i);
        assert(syntax::is_enum_value(vs[i], ps[i]));
        assert(layout::laid_out(s, ns[j]) && tree::well_formed(ns[j]));
        lemma_enum_value_written(vs[i], ns[j], s);
    }
}

/// A rule in front of what follows its node.
proof fn lemma_put_back(
    r: Rule,
    e: Expr,
    s: Seq<u8>,
    pos: int,
    end: int,
    ns: Seq<Node>,
    i: int,
)
    requires
        0 <= i < ns.len(),
        ns[i].rule == r,
        ns[i].start == pos,
        ns[i].start <= ns[i].end <= s.len(),
        layout::laid(e, s, layout::behind(s, ns[i].end as int), end, ns.skip(i + 1)),
        pos <= end <= s.len(),
    ensures
        layout::laid(seq2(rule(r), e), s, pos, end, ns.skip(i)),
{
    let xs = ns.skip(i);
    assert(xs.take(1).len() == 1 && xs.take(1)[0] == ns[i]);
    assert(xs.skip(1) =~= ns.skip(i + 1));
    assert(layout::laid(rule(r), s, pos, ns[i].end as int, xs.take(1)));
    assert(layout::cut(1, ns[i].end as int));
}

/// How a parameter is written.
pub open spec fn parameter_written(x: Parameter, s: Seq<u8>) -> bool {
    &&& x.typ.start == x.range.start
    &&& type_then(s, x.typ, x.name.start as int)
    &&& is_name_at(s, x.name)
    &&& match x.ordinal {
        Some(o) => {
            &&& o.start == layout::behind(s, x.name.end as int)
            &&& lexemes::is_ordinal(s, o.start as int, o.end as int)
            &&& x.range.end == o.end
        },
        None => x.range.end == layout::behind(s, x.name.end as int),
    }
}

/// The ranges of parameters.
pub open spec fn parameter_ranges(xs: Seq<Parameter>) -> Seq<Range> {
    Seq::new(xs.len(), |i: int| xs[i].range)
}

/// Whether the parameters `xs`, with commas between them, stand in parentheses from `open` on,
/// and what follows the parentheses does so at `end`.
pub open spec fn parameters_written(xs: Seq<Parameter>, s: Seq<u8>, open: int, end: int) -> bool {
    &&& lexemes::mark(s, open, '(')
    &&& lexemes::mark(s, end - 1, ')')
    &&& listed(s, open, parameter_ranges(xs), end - 1, false)
    &&& forall|i: int| 0 <= i < xs.len() ==> parameter_written(#[trigger] xs[i], s)
}

proof fn lemma_parameter_written(m: Parameter, n: Node, s: Seq<u8>)
    requires
        vstd::utf8::valid_utf8(s),
        layout::laid_out(s, n),
        tree::well_formed(n),
        n.rule == Rule::parameter,
        syntax::is_parameter(m, n),
    ensures
        parameter_written(m, s),
{
    let ns = n.inner;
    let end = n.end as int;
    let ordinal = rule(Rule::ordinal_value);
    let e1 = opt(ordinal);
    syntax::lemma_parameter(n);
    assert(ns.skip(0) =~= ns);
    lemma_type(seq2(rule(Rule::name), e1), s, n.start as int, end, ns, 0, m.typ);
    let p = layout::behind(s, ns[0].end as int);
    layout::lemma_at_rule(Rule::name, e1, s, p, end, ns, 1);
    assert(layout::laid_out(s, ns[1]));
    lemma_name(s, ns[1]);
    let q = layout::behind(s, ns[1].end as int);
    if ns.len() == 2 {
        assert(ns.skip(2).len() == 0);
        assert(!layout::laid(ordinal, s, q, end, ns.skip(2)));
    } else {
        assert(layout::laid(ordinal, s, q, end, ns.skip(2)));
        layout::lemma_at_last(Rule::ordinal_value, s, q, end, ns, 2);
        assert(layout::laid_out(s, ns[2]));
        lemma_ordinal(s, ns[2]);
    }
}

proof fn lemma_parameters_written(xs: Seq<Parameter>, n: Node, s: Seq<u8>)
    requires
        vstd::utf8::valid_utf8(s),
        layout::laid_out(s, n),
        tree::well_formed(n),
        n.rule == Rule::parameter_list,
        syntax::are_parameters(xs, syntax::picked(n.inner, Rule::parameter)),
    ensures
        parameters_written(xs, s, n.start as int, n.end as int),
{
    let ns = n.inner;
    let end = n.end as int;
    let item = rule(Rule::parameter);
    let comma = rule(Rule::t_comma);
    let again = many(seq2(comma, item));
    let last = rule(Rule::t_rparen);
    let x = seq2(item, again);
    assert(ns.skip(0) =~= ns);
    layout::lemma_at_rule(Rule::t_lparen, seq2(opt(x), last), s, n.start as int, end, ns, 0);
    assert(layout::laid_out(s, ns[0]));
    lemma_brackets(s, ns[0]);
    let p = layout::behind(s, ns[0].end as int);
    layout::lemma_at_opt(x, last, s, p, end, ns.skip(1));
    if !layout::laid(last, s, p, end, ns.skip(1)) {
        lemma_assoc(item, again, last, s, p, end, ns.skip(1));
    }
    let ps = syntax::picked(ns, Rule::parameter);
    let rs = parameter_ranges(xs);
    assert forall|i: int| 0 <= i < rs.len() implies (#[trigger] rs[i]).is_of(ps[i]) by {
        assert(syntax::is_parameter(xs[i], ps[i]));
    }
    lemma_listed(Rule::parameter, Rule::t_rparen, false, s, ns[0], end, ns, rs);
    assert(layout::laid_out(s, ns[ns.len() - 1]));
    lemma_brackets(s, ns.last());
    assert forall|i: int| 0 <= i < xs.len() implies parameter_written(#[trigger] xs[i], s) by {
        let j = fits::lemma_picked_from(ns, Rule::parameter, i);
        assert(syntax::is_parameter(xs[i], ps[i]));
        assert(layout::laid_out(s, ns[j]) && tree::well_formed(ns[j]));
        lemma_parameter_written(xs[i], ns[j], s);
    }
}

/// Whether the ordinal, if there is one, stands behind `end`, and something goes on at `next`.
pub open spec fn ordinal_written(o: Option<Range>, s: Seq<u8>, end: int, next: int) -> bool {
    match o {
        Some(o) => {
            &&& o.start == layout::behind(s, end)
            &&& lexemes::is_ordinal(s, o.start as int, o.end as int)
            &&& next == layout::behind(s, o.end as int)
        },
        None => next == layout::behind(s, end),
    }
}

/// How the response of a method is written: an arrow and parameters.
pub open spec fn response_written(x: Response, s: Seq<u8>) -> bool {
    &&& lexemes::mark(s, x.range.start as int, '=')
    &&& lexemes::mark(s, x.range.start + 1, '>')
    &&& parameters_written(
        x.params@,
        s,
        layout::behind(s, x.range.start + 2),
        x.range.end as int,
    )
}

/// Whether the parameters of a method go from `open` up to `close`, with its ordinal before them
/// and its response behind them, if it has any.
pub open spec fn method_parts(m: Method, s: Seq<u8>, open: int, close: int) -> bool {
    &&& ordinal_written(m.ordinal, s, m.name.end as int, open)
    &&& parameters_written(m.params@, s, open, close)
    &&& match m.response {
        Some(response) => {
            &&& response.range.start == layout::behind(s, close)
            &&& response_written(response, s)
            &&& closed(s, response.range.end as int, m.range.end as int)
        },
        None => closed(s, close, m.range.end as int),
    }
}

/// How a method is written.
pub open spec fn method_written(m: Method, s: Seq<u8>) -> bool {
    &&& after_attributes(s, m.range.start as int, m.name.start as int)
    &&& is_name_at(s, m.name)
    &&& exists|open: int, close: int| #[trigger] method_parts(m, s, open, close)
}

proof fn lemma_response_written(m: Response, n: Node, s: Seq<u8>)
    requires
        vstd::utf8::valid_utf8(s),
        layout::laid_out(s, n),
        tree::well_formed(n),
        n.rule == Rule::response,
        syntax::is_response(m, n),
    ensures
        response_written(m, s),
{
    let ns = n.inner;
    let end = n.end as int;
    syntax::lemma_response(n);
    assert(ns.skip(0) =~= ns);
    layout::lemma_at_rule(
        Rule::t_arrow,
        rule(Rule::parameter_list),
        s,
        n.start as int,
        end,
        ns,
        0,
    );
    let p = layout::behind(s, ns[0].end as int);
    layout::lemma_at_last(Rule::parameter_list, s, p, end, ns, 1);
    assert(layout::laid_out(s, ns[0]) && layout::laid_out(s, ns[1]) && tree::well_formed(ns[1]));
    lemma_arrow(s, ns[0]);
    lemma_parameters_written(m.params@, ns[1], s);
}

/// The ordinal in front of `e`, if there is one.
proof fn lemma_ordinal_written(
    o: Option<Range>,
    e: Expr,
    s: Seq<u8>,
    before: int,
    end: int,
    n: Node,
    i: int,
)
    requires
        vstd::utf8::valid_utf8(s),
        0 <= before <= s.len(),
        0 <= i,
        tree::attrs(n.inner) + i <= n.inner.len(),
        layout::laid_out(s, n),
        layout::laid(
            seq2(opt(rule(Rule::ordinal_value)), e),
            s,
            layout::behind(s, before),
            end,
            n.inner.skip(tree::attrs(n.inner) + i),
        ),
        syntax::is_optional(o, n, i, Rule::ordinal_value),
        syntax::after_ordinal(n, i) == i ==> !layout::laid(
            seq2(rule(Rule::ordinal_value), e),
            s,
            layout::behind(s, before),
            end,
            n.inner.skip(tree::attrs(n.inner) + i),
        ),
        syntax::after_ordinal(n, i) == i + 1 ==> !layout::laid(
            e,
            s,
            layout::behind(s, before),
            end,
            n.inner.skip(tree::attrs(n.inner) + i),
        ),
    ensures
        ({
            let next = match o {
                Some(o) => layout::behind(s, o.end as int),
                None => layout::behind(s, before),
            };
            &&& ordinal_written(o, s, before, next)
            &&& peg::blanks(s, next) == 0
            &&& layout::laid(
                e,
                s,
                next,
                end,
                n.inner.skip(tree::attrs(n.inner) + syntax::after_ordinal(n, i)),
            )
        }),
{
    let ns = n.inner;
    let k = tree::attrs(ns);
    let p = layout::behind(s, before);
    layout::lemma_behind(s, before);
    layout::lemma_at_opt(rule(Rule::ordinal_value), e, s, p, end, ns.skip(k + i));
    if syntax::after_ordinal(n, i) == i + 1 {
        layout::lemma_at_rule(Rule::ordinal_value, e, s, p, end, ns, k + i);
        assert(layout::laid_out(s, ns[k + i]));
        lemma_ordinal(s, ns[k + i]);
    }
}

proof fn lemma_method_written(m: Method, n: Node, s: Seq<u8>)
    requires
        vstd::utf8::valid_utf8(s),
        layout::laid_out(s, n),
        tree::well_formed(n),
        n.rule == Rule::method_stmt,
        syntax::is_method(m, n),
    ensures
        method_written(m, s),
{
    let ns = n.inner;
    let k = tree::attrs(ns);
    let end = n.end as int;
    let semi = rule(Rule::t_semicolon);
    let response = rule(Rule::response);
    let e1 = seq2(opt(response), semi);
    let e2 = seq2(rule(Rule::parameter_list), e1);
    let e3 = seq2(opt(rule(Rule::ordinal_value)), e2);
    syntax::lemma_method(n);
    let p = lemma_attributes(Rule::name, e3, s, n);
    layout::lemma_at_rule(Rule::name, e3, s, p, end, ns, k);
    assert(layout::laid_out(s, ns[k]));
    lemma_name(s, ns[k]);
    let before = ns[k].end as int;
    let q = layout::behind(s, before);
    if syntax::after_ordinal(n, 1) == 1 {
        if layout::laid(seq2(rule(Rule::ordinal_value), e2), s, q, end, ns.skip(k + 1)) {
            layout::lemma_at_rule(Rule::ordinal_value, e2, s, q, end, ns, k + 1);
        }
    } else {
        if layout::laid(e2, s, q, end, ns.skip(k + 1)) {
            layout::lemma_at_rule(Rule::parameter_list, e1, s, q, end, ns, k + 1);
        }
    }
    lemma_ordinal_written(m.ordinal, e2, s, before, end, n, 1);
    let open = match m.ordinal {
        Some(o) => layout::behind(s, o.end as int),
        None => q,
    };
    let j = k + syntax::after_ordinal(n, 1);
    layout::lemma_at_rule(Rule::parameter_list, e1, s, open, end, ns, j);
    assert(layout::laid_out(s, ns[j]) && tree::well_formed(ns[j]));
    lemma_parameters_written(m.params@, ns[j], s);
    let close = ns[j].end as int;
    let r = layout::behind(s, close);
    layout::lemma_at_opt(response, semi, s, r, end, ns.skip(j + 1));
    if layout::laid(semi, s, r, end, ns.skip(j + 1)) {
        layout::lemma_at_last(Rule::t_semicolon, s, r, end, ns, j + 1);
        assert(layout::laid_out(s, ns[j + 1]));
        lemma_semicolon(s, ns[j + 1]);
    } else {
        layout::lemma_at_rule(Rule::response, semi, s, r, end, ns, j + 1);
        assert(layout::laid_out(s, ns[j + 1]) && tree::well_formed(ns[j + 1]));
        let x = m.response->0;
        lemma_response_written(x, ns[j + 1], s);
        let t = layout::behind(s, ns[j + 1].end as int);
        layout::lemma_at_last(Rule::t_semicolon, s, t, end, ns, j + 2);
        assert(layout::laid_out(s, ns[j + 2]));
        lemma_semicolon(s, ns[j + 2]);
    }
    assert(method_parts(m, s, open, close));
}

/// How the default of a field, if it has one, and the end of the field are written, where the
/// field goes on at `next`.
pub open spec fn default_written(d: Option<Range>, s: Seq<u8>, next: int, end: int) -> bool {
    match d {
        Some(value) => {
            &&& lexemes::mark(s, next, '=')
            &&& value.start == layout::behind(s, next + 1)
            &&& value.start < value.end
            &&& closed(s, value.end as int, end)
        },
        None => lexemes::mark(s, next, ';') && end == next + 1,
    }
}

/// How a field of a struct is written.
pub open spec fn struct_field_written(x: StructField, s: Seq<u8>) -> bool {
    &&& after_attributes(s, x.range.start as int, x.typ.start as int)
    &&& type_then(s, x.typ, x.name.start as int)
    &&& is_name_at(s, x.name)
    &&& exists|next: int| #[trigger]
        ordinal_written(x.ordinal, s, x.name.end as int, next) && default_written(
            x.default,
            s,
            next,
            x.range.end as int,
        )
}

/// How a field of a union is written.
pub open spec fn union_field_written(x: UnionField, s: Seq<u8>) -> bool {
    &&& after_attributes(s, x.range.start as int, x.typ.start as int)
    &&& type_then(s, x.typ, x.name.start as int)
    &&& is_name_at(s, x.name)
    &&& exists|next: int| #[trigger]
        ordinal_written(x.ordinal, s, x.name.end as int, next) && default_written(
            None,
            s,
            next,
            x.range.end as int,
        )
}

proof fn lemma_struct_field_written(m: StructField, n: Node, s: Seq<u8>)
    requires
        vstd::utf8::valid_utf8(s),
        layout::laid_out(s, n),
        tree::well_formed(n),
        n.rule == Rule::struct_field,
        syntax::is_struct_field(m, n),
    ensures
        struct_field_written(m, s),
{
    let ns = n.inner;
    let k = tree::attrs(ns);
    let end = n.end as int;
    let semi = rule(Rule::t_semicolon);
    let default = rule(Rule::default);
    let e1 = seq2(opt(default), semi);
    let e2 = seq2(opt(rule(Rule::ordinal_value)), e1);
    let e3 = seq2(rule(Rule::name), e2);
    syntax::lemma_struct_field(n);
    let p = lemma_attributes(Rule::type_spec, e3, s, n);
    lemma_type(e3, s, p, end, ns, k, m.typ);
    let p1 = layout::behind(s, ns[k].end as int);
    layout::lemma_at_rule(Rule::name, e2, s, p1, end, ns, k + 1);
    assert(layout::laid_out(s, ns[k + 1]));
    lemma_name(s, ns[k + 1]);
    let before = ns[k + 1].end as int;
    let q = layout::behind(s, before);
    if syntax::after_ordinal(n, 2) == 2 {
        if layout::laid(seq2(rule(Rule::ordinal_value), e1), s, q, end, ns.skip(k + 2)) {
            layout::lemma_at_rule(Rule::ordinal_value, e1, s, q, end, ns, k + 2);
        }
    } else {
        if layout::laid(e1, s, q, end, ns.skip(k + 2)) {
            layout::lemma_at_opt(default, semi, s, q, end, ns.skip(k + 2));
            if layout::laid(semi, s, q, end, ns.skip(k + 2)) {
                layout::lemma_at_last(Rule::t_semicolon, s, q, end, ns, k + 2);
            } else {
                layout::lemma_at_rule(Rule::default, semi, s, q, end, ns, k + 2);
            }
        }
    }
    lemma_ordinal_written(m.ordinal, e1, s, before, end, n, 2);
    let next = match m.ordinal {
        Some(o) => layout::behind(s, o.end as int),
        None => q,
    };
    let j = k + syntax::after_ordinal(n, 2);
    layout::lemma_at_opt(default, semi, s, next, end, ns.skip(j));
    if layout::laid(semi, s, next, end, ns.skip(j)) {
        layout::lemma_at_last(Rule::t_semicolon, s, next, end, ns, j);
        assert(layout::laid_out(s, ns[j]));
        lemma_semicolon(s, ns[j]);
    } else {
        layout::lemma_at_rule(Rule::default, semi, s, next, end, ns, j);
        let d = ns[j];
        assert(layout::laid_out(s, d));
        let xs = d.inner;
        assert(xs.skip(0) =~= xs);
        layout::lemma_at_rule(
            Rule::t_equal,
            rule(Rule::constant),
            s,
            d.start as int,
            d.end as int,
            xs,
            0,
        );
        let r = layout::behind(s, xs[0].end as int);
        layout::lemma_at_last(Rule::constant, s, r, d.end as int, xs, 1);
        assert(layout::laid_out(s, xs[0]) && layout::laid_out(s, xs[1]));
        lemma_equal(s, xs[0]);
        let t = layout::behind(s, d.end as int);
        layout::lemma_at_last(Rule::t_semicolon, s, t, end, ns, j + 1);
        assert(layout::laid_out(s, ns[j + 1]));
        lemma_semicolon(s, ns[j + 1]);
    }
    assert(ordinal_written(m.ordinal, s, m.name.end as int, next));
}

proof fn lemma_union_field_written(m: UnionField, n: Node, s: Seq<u8>)
    requires
        vstd::utf8::valid_utf8(s),
        layout::laid_out(s, n),
        tree::well_formed(n),
        n.rule == Rule::union_field,
        syntax::is_union_field(m, n),
    ensures
        union_field_written(m, s),
{
    let ns = n.inner;
    let k = tree::attrs(ns);
    let end = n.end as int;
    let semi = rule(Rule::t_semicolon);
    let e2 = seq2(opt(rule(Rule::ordinal_value)), semi);
    let e3 = seq2(rule(Rule::name), e2);
    syntax::lemma_union_field(n);
    let p = lemma_attributes(Rule::type_spec, e3, s, n);
    lemma_type(e3, s, p, end, ns, k, m.typ);
    let p1 = layout::behind(s, ns[k].end as int);
    layout::lemma_at_rule(Rule::name, e2, s, p1, end, ns, k + 1);
    assert(layout::laid_out(s, ns[k + 1]));
    lemma_name(s, ns[k + 1]);
    let before = ns[k + 1].end as int;
    let q = layout::behind(s, before);
    if syntax::after_ordinal(n, 2) == 2 {
        if layout::laid(seq2(rule(Rule::ordinal_value), semi), s, q, end, ns.skip(k + 2)) {
            layout::lemma_at_rule(Rule::ordinal_value, semi, s, q, end, ns, k + 2);
        }
    } else {
        if layout::laid(semi, s, q, end, ns.skip(k + 2)) {
            layout::lemma_at_last(Rule::t_semicolon, s, q, end, ns, k + 2);
        }
    }
    lemma_ordinal_written(m.ordinal, semi, s, before, end, n, 2);
    let next = match m.ordinal {
        Some(o) => layout::behind(s, o.end as int),
        None => q,
    };
    let j = k + syntax::after_ordinal(n, 2);
    layout::lemma_at_last(Rule::t_semicolon, s, next, end, ns, j);
    assert(layout::laid_out(s, ns[j]));
    lemma_semicolon(s, ns[j]);
    assert(ordinal_written(m.ordinal, s, m.name.end as int, next));
}

/// What follows the first `i` nodes: nodes of the rule `x` up to `j`, and then `e`.
proof fn lemma_row(
    x: Rule,
    e: Expr,
    s: Seq<u8>,
    before: int,
    end: int,
    ns: Seq<Node>,
    i: int,
    j: int,
    rs: Seq<Range>,
) -> (close: int)
    requires
        0 <= before <= s.len(),
        0 <= i <= j < ns.len(),
        !ranks::rule_can_be_empty(x),
        layout::laid(seq2(many(rule(x)), e), s, layout::behind(s, before), end, ns.skip(i)),
        forall|q: int| i <= q < j ==> (#[trigger] ns[q]).rule == x,
        ns[j].rule != x,
        forall|from: int, xs: Seq<Node>|
            #[trigger] layout::laid(e, s, from, end, xs) ==> xs.len() > 0 && xs[0].rule != x,
        are_of(rs, ns.subrange(i, j)),
    ensures
        layout::laid(e, s, close, end, ns.skip(j)),
        row_follows(s, before, rs, close),
        peg::blanks(s, close) == 0,
    decreases j - i,
{
    let pos = layout::behind(s, before);
    layout::lemma_behind(s, before);
    reveal_with_fuel(ranks::can_be_empty, 2);
    layout::lemma_at_many(rule(x), e, s, pos, end, ns.skip(i));
    if i == j {
        if !layout::laid(e, s, pos, end, ns.skip(i)) {
            layout::lemma_at_rule(x, seq2(many(rule(x)), e), s, pos, end, ns, i);
        }
        pos
    } else {
        if layout::laid(e, s, pos, end, ns.skip(i)) {
            assert(ns.skip(i)[0] == ns[i]);
        }
        layout::lemma_at_rule(x, seq2(many(rule(x)), e), s, pos, end, ns, i);
        assert(rs[0].is_of(ns.subrange(i, j)[0]));
        assert forall|q: int| 0 <= q < rs.skip(1).len() implies (#[trigger] rs.skip(1)[q]).is_of(
            ns.subrange(i + 1, j)[q],
        ) by {
            assert(rs[q + 1].is_of(ns.subrange(i, j)[q + 1]));
        }
        lemma_row(x, e, s, ns[i].end as int, end, ns, i + 1, j, rs.skip(1))
    }
}

/// The range of a member of an interface.
pub open spec fn member_range(m: InterfaceMember) -> Range {
    match m {
        InterfaceMember::Const(x) => x.range,
        InterfaceMember::Enum(x) => x.range,
        InterfaceMember::Method(x) => x.range,
    }
}

/// The range of a member of a struct.
pub open spec fn struct_member_range(m: StructBody) -> Range {
    match m {
        StructBody::Const(x) => x.range,
        StructBody::Enum(x) => x.range,
        StructBody::Field(x) => x.range,
    }
}

/// The range of a statement.
pub open spec fn statement_range(m: Statement) -> Range {
    match m {
        Statement::Module(x) => x.range,
        Statement::Import(x) => x.range,
        Statement::Interface(x) => x.range,
        Statement::Struct(x) => x.range,
        Statement::Union(x) => x.range,
        Statement::Enum(x) => x.range,
        Statement::Const(x) => x.range,
    }
}

/// How a member of an interface is written.
pub open spec fn member_written(m: InterfaceMember, s: Seq<u8>) -> bool {
    match m {
        InterfaceMember::Const(x) => const_written(x, s),
        InterfaceMember::Enum(x) => enum_written(x, s),
        InterfaceMember::Method(x) => method_written(x, s),
    }
}

/// How a member of a struct is written.
pub open spec fn struct_member_written(m: StructBody, s: Seq<u8>) -> bool {
    match m {
        StructBody::Const(x) => const_written(x, s),
        StructBody::Enum(x) => enum_written(x, s),
        StructBody::Field(x) => struct_field_written(x, s),
    }
}

/// The ranges of the members of an interface.
pub open spec fn member_ranges(ms: Seq<InterfaceMember>) -> Seq<Range> {
    Seq::new(ms.len(), |i: int| member_range(ms[i]))
}

/// The ranges of the members of a struct.
pub open spec fn struct_member_ranges(ms: Seq<StructBody>) -> Seq<Range> {
    Seq::new(ms.len(), |i: int| struct_member_range(ms[i]))
}

/// The ranges of the fields of a union.
pub open spec fn field_ranges(ms: Seq<UnionField>) -> Seq<Range> {
    Seq::new(ms.len(), |i: int| ms[i].range)
}

/// The ranges of statements.
pub open spec fn statement_ranges(ms: Seq<Statement>) -> Seq<Range> {
    Seq::new(ms.len(), |i: int| statement_range(ms[i]))
}

/// Whether the parts `rs`, one behind the other, and nothing else stand in braces behind `name`,
/// with a semicolon behind them that ends at `end`.
pub open spec fn block_written(s: Seq<u8>, name: Range, rs: Seq<Range>, end: int) -> bool {
    let open = layout::behind(s, name.end as int);
    lexemes::mark(s, open, '{') && exists|close: int| #[trigger]
        lexemes::mark(s, close, '}') && row_follows(s, open + 1, rs, close) && closed(
            s,
            close + 1,
            end,
        )
}

/// How an interface is written.
pub open spec fn interface_written(x: Interface, s: Seq<u8>) -> bool {
    &&& introduced(
        s,
        x.range.start as int,
        seq!['i', 'n', 't', 'e', 'r', 'f', 'a', 'c', 'e'],
        x.name.start as int,
    )
    &&& is_name_at(s, x.name)
    &&& block_written(s, x.name, member_ranges(x.members@), x.range.end as int)
    &&& forall|i: int| 0 <= i < x.members@.len() ==> member_written(#[trigger] x.members@[i], s)
}

/// How a struct is written.
pub open spec fn struct_written(x: Struct, s: Seq<u8>) -> bool {
    &&& introduced(
        s,
        x.range.start as int,
        seq!['s', 't', 'r', 'u', 'c', 't'],
        x.name.start as int,
    )
    &&& is_name_at(s, x.name)
    &&& (x.members@.len() == 0 && closed(s, x.name.end as int, x.range.end as int))
        || block_written(s, x.name, struct_member_ranges(x.members@), x.range.end as int)
    &&& forall|i: int|
        0 <= i < x.members@.len() ==> struct_member_written(#[trigger] x.members@[i], s)
}

/// How a union is written.
pub open spec fn union_written(x: Union, s: Seq<u8>) -> bool {
    &&& introduced(s, x.range.start as int, seq!['u', 'n', 'i', 'o', 'n'], x.name.start as int)
    &&& is_name_at(s, x.name)
    &&& block_written(s, x.name, field_ranges(x.fields@), x.range.end as int)
    &&& forall|i: int| 0 <= i < x.fields@.len() ==> union_field_written(#[trigger] x.fields@[i], s)
}

/// How a statement is written.
pub open spec fn statement_written(m: Statement, s: Seq<u8>) -> bool {
    match m {
        Statement::Module(x) => module_written(x, s),
        Statement::Import(x) => import_written(x, s),
        Statement::Interface(x) => interface_written(x, s),
        Statement::Struct(x) => struct_written(x, s),
        Statement::Union(x) => union_written(x, s),
        Statement::Enum(x) => enum_written(x, s),
        Statement::Const(x) => const_written(x, s),
    }
}

/// The word, the name and the opening brace of a block, and the parts in it.
proof fn lemma_block_written(
    w: &'static str,
    first: Rule,
    x: Rule,
    n: Node,
    s: Seq<u8>,
    rs: Seq<Range>,
)
    requires
        vstd::utf8::valid_utf8(s),
        layout::laid_out(s, n),
        n.rule == Rule::union_stmt || n.rule == Rule::interface,
        first == Rule::t_union || first == Rule::t_interface,
        x == Rule::union_field || x == Rule::interface_body,
        rule_body(first) == Expr::Keyword(w),
        vstd::utf8::is_ascii_chars(w@),
        rule_body(n.rule) == seq5(
            opt(rule(Rule::attribute_section)),
            rule(first),
            rule(Rule::name),
            rule(Rule::t_lbrace),
            seq3(many(rule(x)), rule(Rule::t_rbrace), rule(Rule::t_semicolon)),
        ),
        syntax::is_block(n, first, x),
        are_of(rs, syntax::picked(n.inner, x)),
    ensures
        ({
            let name = syntax::child(n, 1);
            let range = Range { start: name.start as usize, end: name.end as usize };
            &&& introduced(s, n.start as int, w@, name.start as int)
            &&& lexemes::is_name(s, name.start as int, name.end as int)
            &&& name.start <= usize::MAX && name.end <= usize::MAX ==> block_written(
                s,
                range,
                rs,
                n.end as int,
            )
        }),
{
    let ns = n.inner;
    let k = tree::attrs(ns);
    let end = n.end as int;
    let tail = seq2(rule(Rule::t_rbrace), rule(Rule::t_semicolon));
    let e1 = seq2(many(rule(x)), tail);
    let e2 = seq2(rule(Rule::t_lbrace), e1);
    let e3 = seq2(rule(Rule::name), e2);
    let p = lemma_attributes(first, e3, s, n);
    layout::lemma_at_rule(first, e3, s, p, end, ns, k);
    let p1 = layout::behind(s, ns[k].end as int);
    layout::lemma_at_rule(Rule::name, e2, s, p1, end, ns, k + 1);
    let p2 = layout::behind(s, ns[k + 1].end as int);
    layout::lemma_at_rule(Rule::t_lbrace, e1, s, p2, end, ns, k + 2);
    assert(layout::laid_out(s, ns[k]) && layout::laid_out(s, ns[k + 1]) && layout::laid_out(
        s,
        ns[k + 2],
    ));
    lemma_keyword(w, s, ns[k]);
    lemma_name(s, ns[k + 1]);
    lemma_brackets(s, ns[k + 2]);
    let j = ns.len() - 2;
    assert forall|from: int, xs: Seq<Node>| #[trigger]
        layout::laid(tail, s, from, end, xs) implies xs.len() > 0 && xs[0].rule != x by {
        assert(xs.skip(0) =~= xs);
        layout::lemma_at_rule(Rule::t_rbrace, rule(Rule::t_semicolon), s, from, end, xs, 0);
    }
    let close = lemma_row(x, tail, s, ns[k + 2].end as int, end, ns, k + 3, j, rs);
    layout::lemma_at_rule(Rule::t_rbrace, rule(Rule::t_semicolon), s, close, end, ns, j);
    let q = layout::behind(s, ns[j].end as int);
    layout::lemma_at_last(Rule::t_semicolon, s, q, end, ns, j + 1);
    assert(layout::laid_out(s, ns[j]) && layout::laid_out(s, ns[j + 1]));
    lemma_brackets(s, ns[j]);
    lemma_semicolon(s, ns[j + 1]);
    assert(lexemes::mark(s, close, '}'));
}

proof fn lemma_union_written(m: Union, n: Node, s: Seq<u8>)
    requires
        vstd::utf8::valid_utf8(s),
        layout::laid_out(s, n),
        tree::well_formed(n),
        n.rule == Rule::union_stmt,
        syntax::is_union(m, n),
    ensures
        union_written(m, s),
{
    let ns = n.inner;
    let ps = syntax::picked(ns, Rule::union_field);
    let rs = field_ranges(m.fields@);
    assert forall|i: int| 0 <= i < rs.len() implies (#[trigger] rs[i]).is_of(ps[i]) by {
        assert(syntax::is_union_field(m.fields@[i], ps[i]));
    }
    syntax::lemma_block(n, Rule::t_union, Rule::union_field);
    reveal_strlit("union");
    assert("union"@ =~= seq!['u', 'n', 'i', 'o', 'n']);
    lemma_block_written("union", Rule::t_union, Rule::union_field, n, s, rs);
    assert forall|i: int| 0 <= i < m.fields@.len() implies union_field_written(
        #[trigger] m.fields@[i],
        s,
    ) by {
        let j = fits::lemma_picked_from(ns, Rule::union_field, i);
        assert(syntax::is_union_field(m.fields@[i], ps[i]));
        assert(layout::laid_out(s, ns[j]) && tree::well_formed(ns[j]));
        lemma_union_field_written(m.fields@[i], ns[j], s);
    }
}

proof fn lemma_interface_written(m: Interface, n: Node, s: Seq<u8>)
    requires
        vstd::utf8::valid_utf8(s),
        layout::laid_out(s, n),
        tree::well_formed(n),
        n.rule == Rule::interface,
        syntax::is_interface(m, n),
    ensures
        interface_written(m, s),
{
    let ns = n.inner;
    let ps = syntax::picked(ns, Rule::interface_body);
    let rs = member_ranges(m.members@);
    assert forall|i: int| 0 <= i < rs.len() implies (#[trigger] rs[i]).is_of(ps[i])
        && member_written(m.members@[i], s) by {
        let j = fits::lemma_picked_from(ns, Rule::interface_body, i);
        assert(syntax::is_interface_member(m.members@[i], ps[i]));
        assert(layout::laid_out(s, ns[j]) && tree::well_formed(ns[j]));
        syntax::lemma_interface_body(ns[j]);
        reveal_with_fuel(layout::laid, 4);
        let x = ns[j].inner[0];
        assert(x.start == ns[j].start && x.end == ns[j].end);
        assert(layout::laid_out(s, x) && tree::well_formed(x));
        match m.members@[i] {
            InterfaceMember::Const(c) => lemma_const_written(c, x, s),
            InterfaceMember::Enum(e) => lemma_enum_written(e, x, s),
            InterfaceMember::Method(f) => lemma_method_written(f, x, s),
        }
    }
    syntax::lemma_block(n, Rule::t_interface, Rule::interface_body);
    reveal_strlit("interface");
    assert("interface"@ =~= seq!['i', 'n', 't', 'e', 'r', 'f', 'a', 'c', 'e']);
    lemma_block_written("interface", Rule::t_interface, Rule::interface_body, n, s, rs);
    assert forall|i: int| 0 <= i < m.members@.len() implies member_written(
        #[trigger] m.members@[i],
        s,
    ) by {
        assert(rs[i].is_of(ps[i]));
    }
}

proof fn lemma_struct_body_written(ms: Seq<StructBody>, n: Node, s: Seq<u8>)
    requires
        vstd::utf8::valid_utf8(s),
        layout::laid_out(s, n),
        tree::well_formed(n),
        n.rule == Rule::struct_body,
        syntax::are_struct_members(ms, syntax::picked(n.inner, Rule::struct_item)),
    ensures
        n.inner.len() > 0,
        lexemes::mark(s, n.start as int, '{'),
        lexemes::mark(s, n.inner.last().start as int, '}'),
        n.end == n.inner.last().start + 1,
        row_follows(
            s,
            n.start as int + 1,
            struct_member_ranges(ms),
            n.inner.last().start as int,
        ),
        forall|i: int| 0 <= i < ms.len() ==> struct_member_written(#[trigger] ms[i], s),
{
    let ns = n.inner;
    let end = n.end as int;
    let x = Rule::struct_item;
    let last = rule(Rule::t_rbrace);
    let ps = syntax::picked(ns, x);
    let rs = struct_member_ranges(ms);
    syntax::lemma_struct_body(n);
    assert forall|i: int| 0 <= i < rs.len() implies (#[trigger] rs[i]).is_of(ps[i])
        && struct_member_written(ms[i], s) by {
        let j = fits::lemma_picked_from(ns, x, i);
        assert(syntax::is_struct_member(ms[i], ps[i]));
        assert(layout::laid_out(s, ns[j]) && tree::well_formed(ns[j]));
        syntax::lemma_struct_item(ns[j]);
        reveal_with_fuel(layout::laid, 4);
        let y = ns[j].inner[0];
        assert(y.start == ns[j].start && y.end == ns[j].end);
        assert(layout::laid_out(s, y) && tree::well_formed(y));
        match ms[i] {
            StructBody::Const(c) => lemma_const_written(c, y, s),
            StructBody::Enum(e) => lemma_enum_written(e, y, s),
            StructBody::Field(f) => lemma_struct_field_written(f, y, s),
        }
    }
    assert(ns.skip(0) =~= ns);
    layout::lemma_at_rule(
        Rule::t_lbrace,
        seq2(many(rule(x)), last),
        s,
        n.start as int,
        end,
        ns,
        0,
    );
    assert(layout::laid_out(s, ns[0]));
    lemma_brackets(s, ns[0]);
    let j = ns.len() - 1;
    assert(ns[j].rule == Rule::t_rbrace);
    let close = lemma_row(x, last, s, ns[0].end as int, end, ns, 1, j, rs);
    layout::lemma_at_last(Rule::t_rbrace, s, close, end, ns, j);
    assert(layout::laid_out(s, ns[j]));
    lemma_brackets(s, ns[j]);
    assert forall|i: int| 0 <= i < ms.len() implies struct_member_written(#[trigger] ms[i], s) by {
        assert(rs[i].is_of(ps[i]));
    }
}

proof fn lemma_struct_written(m: Struct, n: Node, s: Seq<u8>)
    requires
        vstd::utf8::valid_utf8(s),
        layout::laid_out(s, n),
        tree::well_formed(n),
        n.rule == Rule::struct_stmt,
        syntax::is_struct(m, n),
    ensures
        struct_written(m, s),
{
    let ns = n.inner;
    let k = tree::attrs(ns);
    let end = n.end as int;
    let semi = rule(Rule::t_semicolon);
    let body = rule(Rule::struct_body);
    let e1 = seq2(opt(body), semi);
    let e2 = seq2(rule(Rule::name), e1);
    syntax::lemma_struct(n);
    let p = lemma_attributes(Rule::t_struct, e2, s, n);
    layout::lemma_at_rule(Rule::t_struct, e2, s, p, end, ns, k);
    let p1 = layout::behind(s, ns[k].end as int);
    layout::lemma_at_rule(Rule::name, e1, s, p1, end, ns, k + 1);
    assert(layout::laid_out(s, ns[k]) && layout::laid_out(s, ns[k + 1]));
    reveal_strlit("struct");
    assert("struct"@ =~= seq!['s', 't', 'r', 'u', 'c', 't']);
    lemma_keyword("struct", s, ns[k]);
    lemma_name(s, ns[k + 1]);
    let q = layout::behind(s, ns[k + 1].end as int);
    layout::lemma_at_opt(body, semi, s, q, end, ns.skip(k + 2));
    if layout::laid(semi, s, q, end, ns.skip(k + 2)) {
        layout::lemma_at_last(Rule::t_semicolon, s, q, end, ns, k + 2);
        assert(layout::laid_out(s, ns[k + 2]));
        lemma_semicolon(s, ns[k + 2]);
    } else {
        layout::lemma_at_rule(Rule::struct_body, semi, s, q, end, ns, k + 2);
        let r = layout::behind(s, ns[k + 2].end as int);
        layout::lemma_at_last(Rule::t_semicolon, s, r, end, ns, k + 3);
        assert(layout::laid_out(s, ns[k + 2]) && layout::laid_out(s, ns[k + 3]));
        assert(tree::well_formed(ns[k + 2]));
        lemma_semicolon(s, ns[k + 3]);
        lemma_struct_body_written(m.members@, ns[k + 2], s);
        let close = ns[k + 2].inner.last().start as int;
        assert(lexemes::mark(s, close, '}'));
    }
}

proof fn lemma_statement_written(m: Statement, n: Node, s: Seq<u8>)
    requires
        vstd::utf8::valid_utf8(s),
        layout::laid_out(s, n),
        tree::well_formed(n),
        n.rule == Rule::statement,
        syntax::is_statement(m, n),
    ensures
        statement_written(m, s),
        statement_range(m).is_of(n),
{
    syntax::lemma_statement(n);
    reveal_with_fuel(layout::laid, 8);
    let x = n.inner[0];
    assert(x.start == n.start && x.end == n.end);
    assert(layout::laid_out(s, x) && tree::well_formed(x));
    match m {
        Statement::Module(y) => lemma_module_written(y, x, s),
        Statement::Import(y) => lemma_import_written(y, x, s),
        Statement::Interface(y) => lemma_interface_written(y, x, s),
        Statement::Struct(y) => lemma_struct_written(y, x, s),
        Statement::Union(y) => lemma_union_written(y, x, s),
        Statement::Enum(y) => lemma_enum_written(y, x, s),
        Statement::Const(y) => lemma_const_written(y, x, s),
    }
}

/// The statements of a syntax tree are all that its text holds, from its start up to its end,
/// but for white space and comments. Each of them, and each part of it, stands behind the words
/// and signs that belong to it, and all of its parts are there.
pub proof fn tree_is_what_is_written(m: MojomFile, input: Seq<char>)
    requires
        syntax::is_tree_of(m, input),
    ensures
        row_follows(
            text::utf8(input),
            0,
            statement_ranges(m.stmts@),
            text::utf8(input).len() as int,
        ),
        forall|i: int|
            0 <= i < m.stmts@.len() ==> statement_written(
                #[trigger] m.stmts@[i],
                text::utf8(input),
            ),
{
    let s = text::utf8(input);
    let r = Rule::mojom_file;
    vstd::utf8::encode_utf8_valid_utf8(input);
    layout::lemma_parsed_laid(r, input);
    parser::lemma_parsed(r, input);
    let n = parser::parsed(r, input).hit->0.nodes[0];
    assert(layout::laid_out(s, n));
    let ns = n.inner;
    let end = n.end as int;
    let x = Rule::statement;
    let last = rule(Rule::EOI);
    let e = seq2(many(rule(x)), last);
    let ps = syntax::picked(ns, x);
    let rs = statement_ranges(m.stmts@);
    syntax::lemma_mojom_file(n);
    assert forall|i: int| 0 <= i < rs.len() implies (#[trigger] rs[i]).is_of(ps[i])
        && statement_written(m.stmts@[i], s) by {
        let j = fits::lemma_picked_from(ns, x, i);
        assert(syntax::is_statement(m.stmts@[i], ps[i]));
        assert(layout::laid_out(s, ns[j]) && tree::well_formed(ns[j]));
        lemma_statement_written(m.stmts@[i], ns[j], s);
    }
    let (k, mid) = choose|k: int, mid: int| #[trigger]
        layout::cut(k, mid) && 0 <= k <= ns.len() && layout::laid(
            Expr::Start,
            s,
            n.start as int,
            mid,
            ns.take(k),
        ) && layout::laid(e, s, layout::behind(s, mid), end, ns.skip(k));
    assert(ns.take(k).len() == 0);
    assert(mid == 0);
    let j = ns.len() - 1;
    assert(ns[j].rule == Rule::EOI);
    let close = lemma_row(x, last, s, 0, end, ns, 0, j, rs);
    layout::lemma_at_last(Rule::EOI, s, close, end, ns, j);
    let eoi = ns[j];
    assert(layout::laid_out(s, eoi));
    assert(layout::laid(Expr::End, s, eoi.start as int, eoi.end as int, eoi.inner));
    assert forall|i: int| 0 <= i < m.stmts@.len() implies statement_written(
        #[trigger] m.stmts@[i],
        s,
    ) by {
        assert(rs[i].is_of(ps[i]));
    }
}

} // verus!
