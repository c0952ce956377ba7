//! What the rules of the grammar match, by what the rules inside them match.
use vstd::prelude::*;

use crate::grammar::{
    is_atomic, keyword, many, opt, or2, or3, or4, rank, rule, rule_body, seq2, word, Expr,
    Rule, TOP_RANK,
};
use crate::layout;
use crate::lexemes;
use crate::moved;
use crate::peg;
use crate::peg::Trace;
use crate::ranks;
use crate::syntax;
use crate::text;
use crate::written;

verus! {

/// What comes of `f` behind the white space and the comments that follow a match up to `e`.
pub open spec fn go(s: Seq<u8>, e: Option<int>, f: spec_fn(int) -> Option<int>) -> Option<int> {
    match e {
        Some(q) => f(layout::behind(s, q)),
        None => None,
    }
}

/// A match up to `e`, or else the empty one at `pos`.
pub open spec fn or_nothing(e: Option<int>, pos: int) -> Option<int> {
    match e {
        Some(q) => Some(q),
        None => Some(pos),
    }
}

/// A match up to `a`, or else one up to `b`.
pub open spec fn or_else(a: Option<int>, b: Option<int>) -> Option<int> {
    match a {
        Some(q) => Some(q),
        None => b,
    }
}

/// Where a match of `e` at `pos` ends.
pub open spec fn ends(e: Expr, s: Seq<u8>, pos: int) -> Option<int> {
    match peg::run(e, s, pos as nat, peg::empty_trace(), false, TOP_RANK as nat).hit {
        Some(h) => Some(pos + h.len),
        None => None,
    }
}

/// A match does not depend on what was tried before.
pub(crate) proof fn lemma_any_trace(e: Expr, s: Seq<u8>, pos: nat, trace: Trace)
    requires
        pos <= s.len(),
        moved::not_first(e),
    ensures
        ends(e, s, pos as int) == (match peg::run(
            e,
            s,
            pos,
            trace,
            false,
            TOP_RANK as nat,
        ).hit {
            Some(h) => Some((pos + h.len) as int),
            None => None,
        }),
        ends(e, s, pos as int) matches Some(q) ==> pos <= q <= s.len(),
{
    let first = peg::empty_trace();
    moved::lemma_moved(e, s, s, 0, pos, (trace, first), false, TOP_RANK as nat);
    ranks::lemma_run_fits(e, s, pos, trace, false, TOP_RANK as nat);
}

proof fn lemma_cat(a: Expr, b: Expr, s: Seq<u8>, pos: int)
    requires
        0 <= pos <= s.len(),
        moved::not_first(a),
        moved::not_first(b),
    ensures
        ends(seq2(a, b), s, pos) == go(s, ends(a, s, pos), |q: int| ends(b, s, q)),
        ends(a, s, pos) matches Some(q) ==> pos <= q <= layout::behind(s, q) <= s.len(),
{
    let t = peg::empty_trace();
    let p = pos as nat;
    lemma_any_trace(a, s, p, t);
    let o1 = peg::run(a, s, p, t, false, TOP_RANK as nat);
    if let Some(h1) = o1.hit {
        peg::lemma_blanks_fit(s, pos + h1.len);
        let n = h1.len + peg::gap(s, p + h1.len, false);
        lemma_any_trace(b, s, p + n, o1.trace);
    }
}

proof fn lemma_or(a: Expr, b: Expr, s: Seq<u8>, pos: int)
    requires
        0 <= pos <= s.len(),
        moved::not_first(a),
        moved::not_first(b),
    ensures
        ends(or2(a, b), s, pos) == or_else(ends(a, s, pos), ends(b, s, pos)),
{
    let o1 = peg::run(a, s, pos as nat, peg::empty_trace(), false, TOP_RANK as nat);
    lemma_any_trace(b, s, pos as nat, o1.trace);
}

proof fn lemma_opt(a: Expr, s: Seq<u8>, pos: int)
    ensures
        ends(opt(a), s, pos) == or_nothing(ends(a, s, pos), pos),
{
}

/// A rule that is not taken as a whole matches what its body matches.
proof fn lemma_rule(r: Rule, s: Seq<u8>, pos: int)
    requires
        0 <= pos <= s.len(),
        !is_atomic(r),
    ensures
        lexemes::end_of(r, s, pos) == ends(rule_body(r), s, pos),
        r != Rule::mojom_file ==> moved::not_first(rule_body(r)),
{
    ranks::rule_is_its_body(r, s, pos as nat, peg::empty_trace(), false);
    moved::lemma_body_not_first(r);
}

/// Where matches of `a`, one behind the other, end, after a first one up to `pos`.
spec fn repeated(a: Expr, s: Seq<u8>, pos: int) -> int
    decreases s.len() - pos,
{
    match ends(a, s, layout::behind(s, pos)) {
        Some(q) => if pos < q <= s.len() {
            repeated(a, s, q)
        } else {
            pos
        },
        None => pos,
    }
}

proof fn lemma_more(a: Expr, s: Seq<u8>, pos: nat, trace: Trace)
    requires
        pos <= s.len(),
        moved::not_first(a),
    ensures
        peg::more(a, s, pos, trace, false, TOP_RANK as nat).hit matches Some(h) && pos + h.len
            == repeated(a, s, pos as int),
    decreases s.len() - pos,
{
    peg::lemma_blanks_fit(s, pos as int);
    let g = peg::gap(s, pos, false);
    lemma_any_trace(a, s, pos + g, trace);
    let o1 = peg::run(a, s, pos + g, trace, false, TOP_RANK as nat);
    if let Some(h1) = o1.hit {
        if g + h1.len > 0 && pos < s.len() {
            lemma_more(a, s, pos + g + h1.len, o1.trace);
        }
    }
}

proof fn lemma_many(a: Expr, s: Seq<u8>, pos: int)
    requires
        0 <= pos <= s.len(),
        moved::not_first(a),
    ensures
        ends(many(a), s, pos) == (match ends(a, s, pos) {
            Some(q) => Some(
                if pos < q {
                    repeated(a, s, q)
                } else {
                    q
                },
            ),
            None => Some(pos),
        }),
{
    let t = peg::empty_trace();
    let o1 = peg::run(a, s, pos as nat, t, false, TOP_RANK as nat);
    lemma_any_trace(a, s, pos as nat, t);
    if let Some(h1) = o1.hit {
        if h1.len > 0 {
            lemma_more(a, s, pos as nat + h1.len, o1.trace);
        }
    }
}

/// Where matches of the rule `x`, one behind the other, end, after a first one up to `pos`.
pub open spec fn row_end(x: Rule, s: Seq<u8>, pos: int) -> int
    decreases s.len() - pos,
{
    match lexemes::end_of(x, s, layout::behind(s, pos)) {
        Some(q) => if pos < q <= s.len() {
            row_end(x, s, q)
        } else {
            pos
        },
        None => pos,
    }
}

/// Where as many matches of the rule `x` as there are from `pos` on end. There may be none.
pub open spec fn rows_end(x: Rule, s: Seq<u8>, pos: int) -> Option<int> {
    match lexemes::end_of(x, s, pos) {
        Some(q) => Some(
            if pos < q {
                row_end(x, s, q)
            } else {
                q
            },
        ),
        None => Some(pos),
    }
}

/// Where a comma and a match of the rule `x` at `pos` end.
pub open spec fn item_end(x: Rule, s: Seq<u8>, pos: int) -> Option<int> {
    go(s, lexemes::end_of(Rule::t_comma, s, pos), |q: int| lexemes::end_of(x, s, q))
}

/// Where matches of the rule `x`, each behind a comma, end, after a first one up to `pos`.
pub open spec fn item_row_end(x: Rule, s: Seq<u8>, pos: int) -> int
    decreases s.len() - pos,
{
    match item_end(x, s, layout::behind(s, pos)) {
        Some(q) => if pos < q <= s.len() {
            item_row_end(x, s, q)
        } else {
            pos
        },
        None => pos,
    }
}

/// Where as many matches of the rule `x`, each behind a comma, as there are from `pos` on end.
/// There may be none.
pub open spec fn items_end(x: Rule, s: Seq<u8>, pos: int) -> Option<int> {
    match item_end(x, s, pos) {
        Some(q) => Some(
            if pos < q {
                item_row_end(x, s, q)
            } else {
                q
            },
        ),
        None => Some(pos),
    }
}

proof fn lemma_row(x: Rule, s: Seq<u8>, pos: int)
    ensures
        repeated(rule(x), s, pos) == row_end(x, s, pos),
    decreases s.len() - pos,
{
    if let Some(q) = ends(rule(x), s, layout::behind(s, pos)) {
        if pos < q <= s.len() {
            lemma_row(x, s, q);
        }
    }
}

pub(crate) proof fn lemma_rows(x: Rule, s: Seq<u8>, pos: int)
    requires
        0 <= pos <= s.len(),
        x != Rule::mojom_file,
    ensures
        ends(many(rule(x)), s, pos) == rows_end(x, s, pos),
{
    lemma_many(rule(x), s, pos);
    if let Some(q) = ends(rule(x), s, pos) {
        lemma_row(x, s, q);
    }
}

proof fn lemma_item_row(x: Rule, s: Seq<u8>, pos: int)
    requires
        0 <= pos <= s.len(),
        x != Rule::mojom_file,
    ensures
        repeated(seq2(rule(Rule::t_comma), rule(x)), s, pos) == item_row_end(x, s, pos),
    decreases s.len() - pos,
{
    peg::lemma_blanks_fit(s, pos);
    let n = layout::behind(s, pos);
    lemma_cat(rule(Rule::t_comma), rule(x), s, n);
    if let Some(q) = item_end(x, s, n) {
        if pos < q <= s.len() {
            lemma_item_row(x, s, q);
        }
    }
}

proof fn lemma_items(x: Rule, s: Seq<u8>, pos: int)
    requires
        0 <= pos <= s.len(),
        x != Rule::mojom_file,
    ensures
        ends(many(seq2(rule(Rule::t_comma), rule(x))), s, pos) == items_end(x, s, pos),
{
    let item = seq2(rule(Rule::t_comma), rule(x));
    reveal_with_fuel(moved::not_first, 2);
    lemma_many(item, s, pos);
    lemma_cat(rule(Rule::t_comma), rule(x), s, pos);
    lemma_any_trace(item, s, pos as nat, peg::empty_trace());
    if let Some(q) = ends(item, s, pos) {
        lemma_item_row(x, s, q);
    }
}

/// Where the word `w` at `pos` ends, where it stands there as a whole word.
pub open spec fn word_end(s: Seq<u8>, pos: int, w: Seq<char>) -> Option<int> {
    if written::whole_word(s, pos, w) {
        Some(pos + w.len())
    } else {
        None
    }
}

proof fn lemma_word(w: &'static str, s: Seq<u8>, pos: int)
    requires
        0 <= pos <= s.len(),
        vstd::utf8::is_ascii_chars(w@),
    ensures
        ends(keyword(w), s, pos) == word_end(s, pos, w@),
{
    written::lemma_word_stands(w@, s, pos);
}

/// A statement is a module statement, an import, an interface, a struct, a union, an enum or a
/// constant, whichever comes first.
pub proof fn statements_are_these(s: Seq<u8>, pos: int)
    requires
        0 <= pos <= s.len(),
    ensures
        lexemes::end_of(Rule::statement, s, pos) == or_else(
            lexemes::end_of(Rule::module_stmt, s, pos),
            or_else(
                lexemes::end_of(Rule::import_stmt, s, pos),
                or_else(
                    lexemes::end_of(Rule::interface, s, pos),
                    or_else(
                        lexemes::end_of(Rule::struct_stmt, s, pos),
                        or_else(
                            lexemes::end_of(Rule::union_stmt, s, pos),
                            or_else(
                                lexemes::end_of(Rule::enum_stmt, s, pos),
                                lexemes::end_of(Rule::const_stmt, s, pos),
                            ),
                        ),
                    ),
                ),
            ),
        ),
{
    reveal_with_fuel(moved::not_first, 12);
    lemma_rule(Rule::statement, s, pos);
    lemma_or(
        rule(Rule::module_stmt),
        or2(
            rule(Rule::import_stmt),
            or2(
                rule(Rule::interface),
                or2(
                    rule(Rule::struct_stmt),
                    or2(rule(Rule::union_stmt), or2(rule(Rule::enum_stmt), rule(Rule::const_stmt))),
                ),
            ),
        ),
        s,
        pos,
    );
    lemma_or(
        rule(Rule::import_stmt),
        or2(
            rule(Rule::interface),
            or2(
                rule(Rule::struct_stmt),
                or2(rule(Rule::union_stmt), or2(rule(Rule::enum_stmt), rule(Rule::const_stmt))),
            ),
        ),
        s,
        pos,
    );
    lemma_or(
        rule(Rule::interface),
        or2(
            rule(Rule::struct_stmt),
            or2(rule(Rule::union_stmt), or2(rule(Rule::enum_stmt), rule(Rule::const_stmt))),
        ),
        s,
        pos,
    );
    lemma_or(
        rule(Rule::struct_stmt),
        or2(rule(Rule::union_stmt), or2(rule(Rule::enum_stmt), rule(Rule::const_stmt))),
        s,
        pos,
    );
    lemma_or(rule(Rule::union_stmt), or2(rule(Rule::enum_stmt), rule(Rule::const_stmt)), s, pos);
    lemma_or(rule(Rule::enum_stmt), rule(Rule::const_stmt), s, pos);
}

/// A module statement is the word `module`, an identifier and a semicolon, behind attributes if
/// there are any.
pub proof fn module_is_parsed(s: Seq<u8>, pos: int)
    requires
        0 <= pos <= s.len(),
    ensures
        lexemes::end_of(Rule::module_stmt, s, pos) == go(
            s,
            or_nothing(lexemes::end_of(Rule::attribute_section, s, pos), pos),
            |a: int| go(
                s,
                lexemes::end_of(Rule::t_module, s, a),
                |b: int| go(
                    s,
                    lexemes::end_of(Rule::identifier, s, b),
                    |c: int| lexemes::end_of(Rule::t_semicolon, s, c),
                ),
            ),
        ),
{
    reveal_with_fuel(moved::not_first, 12);
    lemma_rule(Rule::module_stmt, s, pos);
    lemma_cat(
        opt(rule(Rule::attribute_section)),
        seq2(rule(Rule::t_module), seq2(rule(Rule::identifier), rule(Rule::t_semicolon))),
        s,
        pos,
    );
    lemma_opt(rule(Rule::attribute_section), s, pos);
    if let Some(q1) = ends(opt(rule(Rule::attribute_section)), s, pos) {
        let p1 = layout::behind(s, q1);
        lemma_cat(
            rule(Rule::t_module),
            seq2(rule(Rule::identifier), rule(Rule::t_semicolon)),
            s,
            p1,
        );
        if let Some(q2) = ends(rule(Rule::t_module), s, p1) {
            let p2 = layout::behind(s, q2);
            lemma_cat(rule(Rule::identifier), rule(Rule::t_semicolon), s, p2);
        }
    }
}

/// An import is the word `import`, a string and a semicolon, behind attributes if there are any.
pub proof fn import_is_parsed(s: Seq<u8>, pos: int)
    requires
        0 <= pos <= s.len(),
    ensures
        lexemes::end_of(Rule::import_stmt, s, pos) == go(
            s,
            or_nothing(lexemes::end_of(Rule::attribute_section, s, pos), pos),
            |a: int| go(
                s,
                lexemes::end_of(Rule::t_import, s, a),
                |b: int| go(
                    s,
                    lexemes::end_of(Rule::string_literal, s, b),
                    |c: int| lexemes::end_of(Rule::t_semicolon, s, c),
                ),
            ),
        ),
{
    reveal_with_fuel(moved::not_first, 12);
    lemma_rule(Rule::import_stmt, s, pos);
    lemma_cat(
        opt(rule(Rule::attribute_section)),
        seq2(rule(Rule::t_import), seq2(rule(Rule::string_literal), rule(Rule::t_semicolon))),
        s,
        pos,
    );
    lemma_opt(rule(Rule::attribute_section), s, pos);
    if let Some(q1) = ends(opt(rule(Rule::attribute_section)), s, pos) {
        let p1 = layout::behind(s, q1);
        lemma_cat(
            rule(Rule::t_import),
            seq2(rule(Rule::string_literal), rule(Rule::t_semicolon)),
            s,
            p1,
        );
        if let Some(q2) = ends(rule(Rule::t_import), s, p1) {
            let p2 = layout::behind(s, q2);
            lemma_cat(rule(Rule::string_literal), rule(Rule::t_semicolon), s, p2);
        }
    }
}

/// An interface is the word `interface`, a name, members in braces and a semicolon, behind
/// attributes if there are any.
pub proof fn interface_is_parsed(s: Seq<u8>, pos: int)
    requires
        0 <= pos <= s.len(),
    ensures
        lexemes::end_of(Rule::interface, s, pos) == go(
            s,
            or_nothing(lexemes::end_of(Rule::attribute_section, s, pos), pos),
            |a: int| go(
                s,
                lexemes::end_of(Rule::t_interface, s, a),
                |b: int| go(
                    s,
                    lexemes::end_of(Rule::name, s, b),
                    |c: int| go(
                        s,
                        lexemes::end_of(Rule::t_lbrace, s, c),
                        |d: int| go(
                            s,
                            rows_end(Rule::interface_body, s, d),
                            |e: int| go(
                                s,
                                lexemes::end_of(Rule::t_rbrace, s, e),
                                |f: int| lexemes::end_of(Rule::t_semicolon, s, f),
                            ),
                        ),
                    ),
                ),
            ),
        ),
{
    reveal_with_fuel(moved::not_first, 12);
    lemma_rule(Rule::interface, s, pos);
    lemma_cat(
        opt(rule(Rule::attribute_section)),
        seq2(
            rule(Rule::t_interface),
            seq2(
                rule(Rule::name),
                seq2(
                    rule(Rule::t_lbrace),
                    seq2(
                        many(rule(Rule::interface_body)),
                        seq2(rule(Rule::t_rbrace), rule(Rule::t_semicolon)),
                    ),
                ),
            ),
        ),
        s,
        pos,
    );
    lemma_opt(rule(Rule::attribute_section), s, pos);
    if let Some(q1) = ends(opt(rule(Rule::attribute_section)), s, pos) {
        let p1 = layout::behind(s, q1);
        lemma_cat(
            rule(Rule::t_interface),
            seq2(
                rule(Rule::name),
                seq2(
                    rule(Rule::t_lbrace),
                    seq2(
                        many(rule(Rule::interface_body)),
                        seq2(rule(Rule::t_rbrace), rule(Rule::t_semicolon)),
                    ),
                ),
            ),
            s,
            p1,
        );
        if let Some(q2) = ends(rule(Rule::t_interface), s, p1) {
            let p2 = layout::behind(s, q2);
            lemma_cat(
                rule(Rule::name),
                seq2(
                    rule(Rule::t_lbrace),
                    seq2(
                        many(rule(Rule::interface_body)),
                        seq2(rule(Rule::t_rbrace), rule(Rule::t_semicolon)),
                    ),
                ),
                s,
                p2,
            );
            if let Some(q3) = ends(rule(Rule::name), s, p2) {
                let p3 = layout::behind(s, q3);
                lemma_cat(
                    rule(Rule::t_lbrace),
                    seq2(
                        many(rule(Rule::interface_body)),
                        seq2(rule(Rule::t_rbrace), rule(Rule::t_semicolon)),
                    ),
                    s,
                    p3,
                );
                if let Some(q4) = ends(rule(Rule::t_lbrace), s, p3) {
                    let p4 = layout::behind(s, q4);
                    lemma_cat(
                        many(rule(Rule::interface_body)),
                        seq2(rule(Rule::t_rbrace), rule(Rule::t_semicolon)),
                        s,
                        p4,
                    );
                    lemma_rows(Rule::interface_body, s, p4);
                    if let Some(q5) = ends(many(rule(Rule::interface_body)), s, p4) {
                        let p5 = layout::behind(s, q5);
                        lemma_cat(rule(Rule::t_rbrace), rule(Rule::t_semicolon), s, p5);
                    }
                }
            }
        }
    }
}

/// A member of an interface is a constant, an enum or a method.
pub proof fn interface_members_are_these(s: Seq<u8>, pos: int)
    requires
        0 <= pos <= s.len(),
    ensures
        lexemes::end_of(Rule::interface_body, s, pos) == or_else(
            lexemes::end_of(Rule::const_stmt, s, pos),
            or_else(
                lexemes::end_of(Rule::enum_stmt, s, pos),
                lexemes::end_of(Rule::method_stmt, s, pos),
            ),
        ),
{
    reveal_with_fuel(moved::not_first, 12);
    lemma_rule(Rule::interface_body, s, pos);
    lemma_or(rule(Rule::const_stmt), or2(rule(Rule::enum_stmt), rule(Rule::method_stmt)), s, pos);
    lemma_or(rule(Rule::enum_stmt), rule(Rule::method_stmt), s, pos);
}

/// A method is a name, parameters and a semicolon, behind attributes, with an ordinal before the
/// parameters and a response behind them, if there are any.
pub proof fn method_is_parsed(s: Seq<u8>, pos: int)
    requires
        0 <= pos <= s.len(),
    ensures
        lexemes::end_of(Rule::method_stmt, s, pos) == go(
            s,
            or_nothing(lexemes::end_of(Rule::attribute_section, s, pos), pos),
            |a: int| go(
                s,
                lexemes::end_of(Rule::name, s, a),
                |b: int| go(
                    s,
                    or_nothing(lexemes::end_of(Rule::ordinal_value, s, b), b),
                    |c: int| go(
                        s,
                        lexemes::end_of(Rule::parameter_list, s, c),
                        |d: int| go(
                            s,
                            or_nothing(lexemes::end_of(Rule::response, s, d), d),
                            |e: int| lexemes::end_of(Rule::t_semicolon, s, e),
                        ),
                    ),
                ),
            ),
        ),
{
    reveal_with_fuel(moved::not_first, 12);
    lemma_rule(Rule::method_stmt, s, pos);
    lemma_cat(
        opt(rule(Rule::attribute_section)),
        seq2(
            rule(Rule::name),
            seq2(
                opt(rule(Rule::ordinal_value)),
                seq2(
                    rule(Rule::parameter_list),
                    seq2(opt(rule(Rule::response)), rule(Rule::t_semicolon)),
                ),
            ),
        ),
        s,
        pos,
    );
    lemma_opt(rule(Rule::attribute_section), s, pos);
    if let Some(q1) = ends(opt(rule(Rule::attribute_section)), s, pos) {
        let p1 = layout::behind(s, q1);
        lemma_cat(
            rule(Rule::name),
            seq2(
                opt(rule(Rule::ordinal_value)),
                seq2(
                    rule(Rule::parameter_list),
                    seq2(opt(rule(Rule::response)), rule(Rule::t_semicolon)),
                ),
            ),
            s,
            p1,
        );
        if let Some(q2) = ends(rule(Rule::name), s, p1) {
            let p2 = layout::behind(s, q2);
            lemma_cat(
                opt(rule(Rule::ordinal_value)),
                seq2(
                    rule(Rule::parameter_list),
                    seq2(opt(rule(Rule::response)), rule(Rule::t_semicolon)),
                ),
                s,
                p2,
            );
            lemma_opt(rule(Rule::ordinal_value), s, p2);
            if let Some(q3) = ends(opt(rule(Rule::ordinal_value)), s, p2) {
                let p3 = layout::behind(s, q3);
                lemma_cat(
                    rule(Rule::parameter_list),
                    seq2(opt(rule(Rule::response)), rule(Rule::t_semicolon)),
                    s,
                    p3,
                );
                if let Some(q4) = ends(rule(Rule::parameter_list), s, p3) {
                    let p4 = layout::behind(s, q4);
                    lemma_cat(opt(rule(Rule::response)), rule(Rule::t_semicolon), s, p4);
                    lemma_opt(rule(Rule::response), s, p4);
                }
            }
        }
    }
}

/// Parameters stand in parentheses, with commas between them. There may be none.
pub proof fn parameter_list_is_parsed(s: Seq<u8>, pos: int)
    requires
        0 <= pos <= s.len(),
    ensures
        lexemes::end_of(Rule::parameter_list, s, pos) == go(
            s,
            lexemes::end_of(Rule::t_lparen, s, pos),
            |a: int| go(
                s,
                or_nothing(
                    go(
                        s,
                        lexemes::end_of(Rule::parameter, s, a),
                        |b: int| items_end(Rule::parameter, s, b),
                    ),
                    a,
                ),
                |c: int| lexemes::end_of(Rule::t_rparen, s, c),
            ),
        ),
{
    reveal_with_fuel(moved::not_first, 12);
    lemma_rule(Rule::parameter_list, s, pos);
    lemma_cat(
        rule(Rule::t_lparen),
        seq2(
            opt(
                seq2(rule(Rule::parameter), many(seq2(rule(Rule::t_comma), rule(Rule::parameter)))),
            ),
            rule(Rule::t_rparen),
        ),
        s,
        pos,
    );
    if let Some(q1) = ends(rule(Rule::t_lparen), s, pos) {
        let p1 = layout::behind(s, q1);
        lemma_cat(
            opt(
                seq2(rule(Rule::parameter), many(seq2(rule(Rule::t_comma), rule(Rule::parameter)))),
            ),
            rule(Rule::t_rparen),
            s,
            p1,
        );
        lemma_opt(
            seq2(rule(Rule::parameter), many(seq2(rule(Rule::t_comma), rule(Rule::parameter)))),
            s,
            p1,
        );
        lemma_cat(
            rule(Rule::parameter),
            many(seq2(rule(Rule::t_comma), rule(Rule::parameter))),
            s,
            p1,
        );
        if let Some(q2) = ends(rule(Rule::parameter), s, p1) {
            let p2 = layout::behind(s, q2);
            lemma_items(Rule::parameter, s, p2);
        }
    }
}

/// A parameter is a type and a name, with an ordinal if there is one.
pub proof fn parameter_is_parsed(s: Seq<u8>, pos: int)
    requires
        0 <= pos <= s.len(),
    ensures
        lexemes::end_of(Rule::parameter, s, pos) == go(
            s,
            lexemes::end_of(Rule::type_spec, s, pos),
            |a: int| go(
                s,
                lexemes::end_of(Rule::name, s, a),
                |b: int| or_nothing(lexemes::end_of(Rule::ordinal_value, s, b), b),
            ),
        ),
{
    reveal_with_fuel(moved::not_first, 12);
    lemma_rule(Rule::parameter, s, pos);
    lemma_cat(
        rule(Rule::type_spec),
        seq2(rule(Rule::name), opt(rule(Rule::ordinal_value))),
        s,
        pos,
    );
    if let Some(q1) = ends(rule(Rule::type_spec), s, pos) {
        let p1 = layout::behind(s, q1);
        lemma_cat(rule(Rule::name), opt(rule(Rule::ordinal_value)), s, p1);
        if let Some(q2) = ends(rule(Rule::name), s, p1) {
            let p2 = layout::behind(s, q2);
            lemma_opt(rule(Rule::ordinal_value), s, p2);
        }
    }
}

/// A response is an arrow and parameters.
pub proof fn response_is_parsed(s: Seq<u8>, pos: int)
    requires
        0 <= pos <= s.len(),
    ensures
        lexemes::end_of(Rule::response, s, pos) == go(
            s,
            lexemes::end_of(Rule::t_arrow, s, pos),
            |a: int| lexemes::end_of(Rule::parameter_list, s, a),
        ),
{
    reveal_with_fuel(moved::not_first, 12);
    lemma_rule(Rule::response, s, pos);
    lemma_cat(rule(Rule::t_arrow), rule(Rule::parameter_list), s, pos);
}

/// A struct is the word `struct`, a name, a body if there is one, and a semicolon, behind
/// attributes if there are any.
pub proof fn struct_is_parsed(s: Seq<u8>, pos: int)
    requires
        0 <= pos <= s.len(),
    ensures
        lexemes::end_of(Rule::struct_stmt, s, pos) == go(
            s,
            or_nothing(lexemes::end_of(Rule::attribute_section, s, pos), pos),
            |a: int| go(
                s,
                lexemes::end_of(Rule::t_struct, s, a),
                |b: int| go(
                    s,
                    lexemes::end_of(Rule::name, s, b),
                    |c: int| go(
                        s,
                        or_nothing(lexemes::end_of(Rule::struct_body, s, c), c),
                        |d: int| lexemes::end_of(Rule::t_semicolon, s, d),
                    ),
                ),
            ),
        ),
{
    reveal_with_fuel(moved::not_first, 12);
    lemma_rule(Rule::struct_stmt, s, pos);
    lemma_cat(
        opt(rule(Rule::attribute_section)),
        seq2(
            rule(Rule::t_struct),
            seq2(rule(Rule::name), seq2(opt(rule(Rule::struct_body)), rule(Rule::t_semicolon))),
        ),
        s,
        pos,
    );
    lemma_opt(rule(Rule::attribute_section), s, pos);
    if let Some(q1) = ends(opt(rule(Rule::attribute_section)), s, pos) {
        let p1 = layout::behind(s, q1);
        lemma_cat(
            rule(Rule::t_struct),
            seq2(rule(Rule::name), seq2(opt(rule(Rule::struct_body)), rule(Rule::t_semicolon))),
            s,
            p1,
        );
        if let Some(q2) = ends(rule(Rule::t_struct), s, p1) {
            let p2 = layout::behind(s, q2);
            lemma_cat(
                rule(Rule::name),
                seq2(opt(rule(Rule::struct_body)), rule(Rule::t_semicolon)),
                s,
                p2,
            );
            if let Some(q3) = ends(rule(Rule::name), s, p2) {
                let p3 = layout::behind(s, q3);
                lemma_cat(opt(rule(Rule::struct_body)), rule(Rule::t_semicolon), s, p3);
                lemma_opt(rule(Rule::struct_body), s, p3);
            }
        }
    }
}

/// The body of a struct is members in braces. There may be none.
pub proof fn struct_body_is_parsed(s: Seq<u8>, pos: int)
    requires
        0 <= pos <= s.len(),
    ensures
        lexemes::end_of(Rule::struct_body, s, pos) == go(
            s,
            lexemes::end_of(Rule::t_lbrace, s, pos),
            |a: int| go(
                s,
                rows_end(Rule::struct_item, s, a),
                |b: int| lexemes::end_of(Rule::t_rbrace, s, b),
            ),
        ),
{
    reveal_with_fuel(moved::not_first, 12);
    lemma_rule(Rule::struct_body, s, pos);
    lemma_cat(
        rule(Rule::t_lbrace),
        seq2(many(rule(Rule::struct_item)), rule(Rule::t_rbrace)),
        s,
        pos,
    );
    if let Some(q1) = ends(rule(Rule::t_lbrace), s, pos) {
        let p1 = layout::behind(s, q1);
        lemma_cat(many(rule(Rule::struct_item)), rule(Rule::t_rbrace), s, p1);
        lemma_rows(Rule::struct_item, s, p1);
    }
}

/// A member of a struct is a constant, an enum or a field.
pub proof fn struct_members_are_these(s: Seq<u8>, pos: int)
    requires
        0 <= pos <= s.len(),
    ensures
        lexemes::end_of(Rule::struct_item, s, pos) == or_else(
            lexemes::end_of(Rule::const_stmt, s, pos),
            or_else(
                lexemes::end_of(Rule::enum_stmt, s, pos),
                lexemes::end_of(Rule::struct_field, s, pos),
            ),
        ),
{
    reveal_with_fuel(moved::not_first, 12);
    lemma_rule(Rule::struct_item, s, pos);
    lemma_or(rule(Rule::const_stmt), or2(rule(Rule::enum_stmt), rule(Rule::struct_field)), s, pos);
    lemma_or(rule(Rule::enum_stmt), rule(Rule::struct_field), s, pos);
}

/// A field of a struct is a type, a name and a semicolon, behind attributes, with an ordinal and
/// a default, if there are any.
pub proof fn struct_field_is_parsed(s: Seq<u8>, pos: int)
    requires
        0 <= pos <= s.len(),
    ensures
        lexemes::end_of(Rule::struct_field, s, pos) == go(
            s,
            or_nothing(lexemes::end_of(Rule::attribute_section, s, pos), pos),
            |a: int| go(
                s,
                lexemes::end_of(Rule::type_spec, s, a),
                |b: int| go(
                    s,
                    lexemes::end_of(Rule::name, s, b),
                    |c: int| go(
                        s,
                        or_nothing(lexemes::end_of(Rule::ordinal_value, s, c), c),
                        |d: int| go(
                            s,
                            or_nothing(lexemes::end_of(Rule::default, s, d), d),
                            |e: int| lexemes::end_of(Rule::t_semicolon, s, e),
                        ),
                    ),
                ),
            ),
        ),
{
    reveal_with_fuel(moved::not_first, 12);
    lemma_rule(Rule::struct_field, s, pos);
    lemma_cat(
        opt(rule(Rule::attribute_section)),
        seq2(
            rule(Rule::type_spec),
            seq2(
                rule(Rule::name),
                seq2(
                    opt(rule(Rule::ordinal_value)),
                    seq2(opt(rule(Rule::default)), rule(Rule::t_semicolon)),
                ),
            ),
        ),
        s,
        pos,
    );
    lemma_opt(rule(Rule::attribute_section), s, pos);
    if let Some(q1) = ends(opt(rule(Rule::attribute_section)), s, pos) {
        let p1 = layout::behind(s, q1);
        lemma_cat(
            rule(Rule::type_spec),
            seq2(
                rule(Rule::name),
                seq2(
                    opt(rule(Rule::ordinal_value)),
                    seq2(opt(rule(Rule::default)), rule(Rule::t_semicolon)),
                ),
            ),
            s,
            p1,
        );
        if let Some(q2) = ends(rule(Rule::type_spec), s, p1) {
            let p2 = layout::behind(s, q2);
            lemma_cat(
                rule(Rule::name),
                seq2(
                    opt(rule(Rule::ordinal_value)),
                    seq2(opt(rule(Rule::default)), rule(Rule::t_semicolon)),
                ),
                s,
                p2,
            );
            if let Some(q3) = ends(rule(Rule::name), s, p2) {
                let p3 = layout::behind(s, q3);
                lemma_cat(
                    opt(rule(Rule::ordinal_value)),
                    seq2(opt(rule(Rule::default)), rule(Rule::t_semicolon)),
                    s,
                    p3,
                );
                lemma_opt(rule(Rule::ordinal_value), s, p3);
                if let Some(q4) = ends(opt(rule(Rule::ordinal_value)), s, p3) {
                    let p4 = layout::behind(s, q4);
                    lemma_cat(opt(rule(Rule::default)), rule(Rule::t_semicolon), s, p4);
                    lemma_opt(rule(Rule::default), s, p4);
                }
            }
        }
    }
}

/// A default is an equals sign and a constant.
pub proof fn default_is_parsed(s: Seq<u8>, pos: int)
    requires
        0 <= pos <= s.len(),
    ensures
        lexemes::end_of(Rule::default, s, pos) == go(
            s,
            lexemes::end_of(Rule::t_equal, s, pos),
            |a: int| lexemes::end_of(Rule::constant, s, a),
        ),
{
    reveal_with_fuel(moved::not_first, 12);
    lemma_rule(Rule::default, s, pos);
    lemma_cat(rule(Rule::t_equal), rule(Rule::constant), s, pos);
}

/// A union is the word `union`, a name, fields in braces and a semicolon, behind attributes if
/// there are any.
pub proof fn union_is_parsed(s: Seq<u8>, pos: int)
    requires
        0 <= pos <= s.len(),
    ensures
        lexemes::end_of(Rule::union_stmt, s, pos) == go(
            s,
            or_nothing(lexemes::end_of(Rule::attribute_section, s, pos), pos),
            |a: int| go(
                s,
                lexemes::end_of(Rule::t_union, s, a),
                |b: int| go(
                    s,
                    lexemes::end_of(Rule::name, s, b),
                    |c: int| go(
                        s,
                        lexemes::end_of(Rule::t_lbrace, s, c),
                        |d: int| go(
                            s,
                            rows_end(Rule::union_field, s, d),
                            |e: int| go(
                                s,
                                lexemes::end_of(Rule::t_rbrace, s, e),
                                |f: int| lexemes::end_of(Rule::t_semicolon, s, f),
                            ),
                        ),
                    ),
                ),
            ),
        ),
{
    reveal_with_fuel(moved::not_first, 12);
    lemma_rule(Rule::union_stmt, s, pos);
    lemma_cat(
        opt(rule(Rule::attribute_section)),
        seq2(
            rule(Rule::t_union),
            seq2(
                rule(Rule::name),
                seq2(
                    rule(Rule::t_lbrace),
                    seq2(
                        many(rule(Rule::union_field)),
                        seq2(rule(Rule::t_rbrace), rule(Rule::t_semicolon)),
                    ),
                ),
            ),
        ),
        s,
        pos,
    );
    lemma_opt(rule(Rule::attribute_section), s, pos);
    if let Some(q1) = ends(opt(rule(Rule::attribute_section)), s, pos) {
        let p1 = layout::behind(s, q1);
        lemma_cat(
            rule(Rule::t_union),
            seq2(
                rule(Rule::name),
                seq2(
                    rule(Rule::t_lbrace),
                    seq2(
                        many(rule(Rule::union_field)),
                        seq2(rule(Rule::t_rbrace), rule(Rule::t_semicolon)),
                    ),
                ),
            ),
            s,
            p1,
        );
        if let Some(q2) = ends(rule(Rule::t_union), s, p1) {
            let p2 = layout::behind(s, q2);
            lemma_cat(
                rule(Rule::name),
                seq2(
                    rule(Rule::t_lbrace),
                    seq2(
                        many(rule(Rule::union_field)),
                        seq2(rule(Rule::t_rbrace), rule(Rule::t_semicolon)),
                    ),
                ),
                s,
                p2,
            );
            if let Some(q3) = ends(rule(Rule::name), s, p2) {
                let p3 = layout::behind(s, q3);
                lemma_cat(
                    rule(Rule::t_lbrace),
                    seq2(
                        many(rule(Rule::union_field)),
                        seq2(rule(Rule::t_rbrace), rule(Rule::t_semicolon)),
                    ),
                    s,
                    p3,
                );
                if let Some(q4) = ends(rule(Rule::t_lbrace), s, p3) {
                    let p4 = layout::behind(s, q4);
                    lemma_cat(
                        many(rule(Rule::union_field)),
                        seq2(rule(Rule::t_rbrace), rule(Rule::t_semicolon)),
                        s,
                        p4,
                    );
                    lemma_rows(Rule::union_field, s, p4);
                    if let Some(q5) = ends(many(rule(Rule::union_field)), s, p4) {
                        let p5 = layout::behind(s, q5);
                        lemma_cat(rule(Rule::t_rbrace), rule(Rule::t_semicolon), s, p5);
                    }
                }
            }
        }
    }
}

/// A field of a union is a type, a name and a semicolon, behind attributes and with an ordinal if
/// there are any.
pub proof fn union_field_is_parsed(s: Seq<u8>, pos: int)
    requires
        0 <= pos <= s.len(),
    ensures
        lexemes::end_of(Rule::union_field, s, pos) == go(
            s,
            or_nothing(lexemes::end_of(Rule::attribute_section, s, pos), pos),
            |a: int| go(
                s,
                lexemes::end_of(Rule::type_spec, s, a),
                |b: int| go(
                    s,
                    lexemes::end_of(Rule::name, s, b),
                    |c: int| go(
                        s,
                        or_nothing(lexemes::end_of(Rule::ordinal_value, s, c), c),
                        |d: int| lexemes::end_of(Rule::t_semicolon, s, d),
                    ),
                ),
            ),
        ),
{
    reveal_with_fuel(moved::not_first, 12);
    lemma_rule(Rule::union_field, s, pos);
    lemma_cat(
        opt(rule(Rule::attribute_section)),
        seq2(
            rule(Rule::type_spec),
            seq2(rule(Rule::name), seq2(opt(rule(Rule::ordinal_value)), rule(Rule::t_semicolon))),
        ),
        s,
        pos,
    );
    lemma_opt(rule(Rule::attribute_section), s, pos);
    if let Some(q1) = ends(opt(rule(Rule::attribute_section)), s, pos) {
        let p1 = layout::behind(s, q1);
        lemma_cat(
            rule(Rule::type_spec),
            seq2(rule(Rule::name), seq2(opt(rule(Rule::ordinal_value)), rule(Rule::t_semicolon))),
            s,
            p1,
        );
        if let Some(q2) = ends(rule(Rule::type_spec), s, p1) {
            let p2 = layout::behind(s, q2);
            lemma_cat(
                rule(Rule::name),
                seq2(opt(rule(Rule::ordinal_value)), rule(Rule::t_semicolon)),
                s,
                p2,
            );
            if let Some(q3) = ends(rule(Rule::name), s, p2) {
                let p3 = layout::behind(s, q3);
                lemma_cat(opt(rule(Rule::ordinal_value)), rule(Rule::t_semicolon), s, p3);
                lemma_opt(rule(Rule::ordinal_value), s, p3);
            }
        }
    }
}

/// An enum is the word `enum`, a name, values if there are any, and a semicolon, behind
/// attributes if there are any.
pub proof fn enum_is_parsed(s: Seq<u8>, pos: int)
    requires
        0 <= pos <= s.len(),
    ensures
        lexemes::end_of(Rule::enum_stmt, s, pos) == go(
            s,
            or_nothing(lexemes::end_of(Rule::attribute_section, s, pos), pos),
            |a: int| go(
                s,
                word_end(s, a, "enum"@),
                |b: int| go(
                    s,
                    lexemes::end_of(Rule::name, s, b),
                    |c: int| go(
                        s,
                        or_nothing(lexemes::end_of(Rule::enum_block, s, c), c),
                        |d: int| lexemes::end_of(Rule::t_semicolon, s, d),
                    ),
                ),
            ),
        ),
{
    reveal_with_fuel(moved::not_first, 12);
    reveal_strlit("enum");
    lemma_rule(Rule::enum_stmt, s, pos);
    lemma_cat(
        opt(rule(Rule::attribute_section)),
        seq2(
            keyword("enum"),
            seq2(rule(Rule::name), seq2(opt(rule(Rule::enum_block)), rule(Rule::t_semicolon))),
        ),
        s,
        pos,
    );
    lemma_opt(rule(Rule::attribute_section), s, pos);
    if let Some(q1) = ends(opt(rule(Rule::attribute_section)), s, pos) {
        let p1 = layout::behind(s, q1);
        lemma_cat(
            keyword("enum"),
            seq2(rule(Rule::name), seq2(opt(rule(Rule::enum_block)), rule(Rule::t_semicolon))),
            s,
            p1,
        );
        lemma_word("enum", s, p1);
        if let Some(q2) = ends(keyword("enum"), s, p1) {
            let p2 = layout::behind(s, q2);
            lemma_cat(
                rule(Rule::name),
                seq2(opt(rule(Rule::enum_block)), rule(Rule::t_semicolon)),
                s,
                p2,
            );
            if let Some(q3) = ends(rule(Rule::name), s, p2) {
                let p3 = layout::behind(s, q3);
                lemma_cat(opt(rule(Rule::enum_block)), rule(Rule::t_semicolon), s, p3);
                lemma_opt(rule(Rule::enum_block), s, p3);
            }
        }
    }
}

/// The values of an enum stand in braces, with commas between them and possibly one more behind
/// the last. There may be none.
pub proof fn enum_values_are_parsed(s: Seq<u8>, pos: int)
    requires
        0 <= pos <= s.len(),
    ensures
        lexemes::end_of(Rule::enum_block, s, pos) == go(
            s,
            lexemes::end_of(Rule::t_lbrace, s, pos),
            |a: int| go(
                s,
                or_nothing(
                    go(
                        s,
                        lexemes::end_of(Rule::enum_value, s, a),
                        |b: int| go(
                            s,
                            items_end(Rule::enum_value, s, b),
                            |c: int| or_nothing(lexemes::end_of(Rule::t_comma, s, c), c),
                        ),
                    ),
                    a,
                ),
                |d: int| lexemes::end_of(Rule::t_rbrace, s, d),
            ),
        ),
{
    reveal_with_fuel(moved::not_first, 12);
    lemma_rule(Rule::enum_block, s, pos);
    lemma_cat(
        rule(Rule::t_lbrace),
        seq2(
            opt(
                seq2(
                    rule(Rule::enum_value),
                    seq2(
                        many(seq2(rule(Rule::t_comma), rule(Rule::enum_value))),
                        opt(rule(Rule::t_comma)),
                    ),
                ),
            ),
            rule(Rule::t_rbrace),
        ),
        s,
        pos,
    );
    if let Some(q1) = ends(rule(Rule::t_lbrace), s, pos) {
        let p1 = layout::behind(s, q1);
        lemma_cat(
            opt(
                seq2(
                    rule(Rule::enum_value),
                    seq2(
                        many(seq2(rule(Rule::t_comma), rule(Rule::enum_value))),
                        opt(rule(Rule::t_comma)),
                    ),
                ),
            ),
            rule(Rule::t_rbrace),
            s,
            p1,
        );
        lemma_opt(
            seq2(
                rule(Rule::enum_value),
                seq2(
                    many(seq2(rule(Rule::t_comma), rule(Rule::enum_value))),
                    opt(rule(Rule::t_comma)),
                ),
            ),
            s,
            p1,
        );
        lemma_cat(
            rule(Rule::enum_value),
            seq2(many(seq2(rule(Rule::t_comma), rule(Rule::enum_value))), opt(rule(Rule::t_comma))),
            s,
            p1,
        );
        if let Some(q2) = ends(rule(Rule::enum_value), s, p1) {
            let p2 = layout::behind(s, q2);
            lemma_cat(
                many(seq2(rule(Rule::t_comma), rule(Rule::enum_value))),
                opt(rule(Rule::t_comma)),
                s,
                p2,
            );
            lemma_items(Rule::enum_value, s, p2);
            if let Some(q3) = ends(many(seq2(rule(Rule::t_comma), rule(Rule::enum_value))), s, p2) {
                let p3 = layout::behind(s, q3);
                lemma_opt(rule(Rule::t_comma), s, p3);
            }
        }
    }
}

/// A value of an enum is a name, and possibly an equals sign and an integer or an identifier,
/// behind attributes if there are any.
pub proof fn enum_value_is_parsed(s: Seq<u8>, pos: int)
    requires
        0 <= pos <= s.len(),
    ensures
        lexemes::end_of(Rule::enum_value, s, pos) == go(
            s,
            or_nothing(lexemes::end_of(Rule::attribute_section, s, pos), pos),
            |a: int| go(
                s,
                lexemes::end_of(Rule::name, s, a),
                |b: int| or_nothing(
                    go(
                        s,
                        lexemes::end_of(Rule::t_equal, s, b),
                        |c: int| or_else(
                            lexemes::end_of(Rule::integer, s, c),
                            lexemes::end_of(Rule::identifier, s, c),
                        ),
                    ),
                    b,
                ),
            ),
        ),
{
    reveal_with_fuel(moved::not_first, 12);
    lemma_rule(Rule::enum_value, s, pos);
    lemma_cat(
        opt(rule(Rule::attribute_section)),
        seq2(
            rule(Rule::name),
            opt(seq2(rule(Rule::t_equal), or2(rule(Rule::integer), rule(Rule::identifier)))),
        ),
        s,
        pos,
    );
    lemma_opt(rule(Rule::attribute_section), s, pos);
    if let Some(q1) = ends(opt(rule(Rule::attribute_section)), s, pos) {
        let p1 = layout::behind(s, q1);
        lemma_cat(
            rule(Rule::name),
            opt(seq2(rule(Rule::t_equal), or2(rule(Rule::integer), rule(Rule::identifier)))),
            s,
            p1,
        );
        if let Some(q2) = ends(rule(Rule::name), s, p1) {
            let p2 = layout::behind(s, q2);
            lemma_opt(
                seq2(rule(Rule::t_equal), or2(rule(Rule::integer), rule(Rule::identifier))),
                s,
                p2,
            );
            lemma_cat(rule(Rule::t_equal), or2(rule(Rule::integer), rule(Rule::identifier)), s, p2);
            if let Some(q3) = ends(rule(Rule::t_equal), s, p2) {
                let p3 = layout::behind(s, q3);
                lemma_or(rule(Rule::integer), rule(Rule::identifier), s, p3);
            }
        }
    }
}

/// A constant is the word `const`, a type, a name, an equals sign, what the constant stands for
/// and a semicolon, behind attributes if there are any.
pub proof fn const_is_parsed(s: Seq<u8>, pos: int)
    requires
        0 <= pos <= s.len(),
    ensures
        lexemes::end_of(Rule::const_stmt, s, pos) == go(
            s,
            or_nothing(lexemes::end_of(Rule::attribute_section, s, pos), pos),
            |a: int| go(
                s,
                lexemes::end_of(Rule::t_const, s, a),
                |b: int| go(
                    s,
                    lexemes::end_of(Rule::type_spec, s, b),
                    |c: int| go(
                        s,
                        lexemes::end_of(Rule::name, s, c),
                        |d: int| go(
                            s,
                            lexemes::end_of(Rule::t_equal, s, d),
                            |e: int| go(
                                s,
                                lexemes::end_of(Rule::constant, s, e),
                                |f: int| lexemes::end_of(Rule::t_semicolon, s, f),
                            ),
                        ),
                    ),
                ),
            ),
        ),
{
    reveal_with_fuel(moved::not_first, 12);
    lemma_rule(Rule::const_stmt, s, pos);
    lemma_cat(
        opt(rule(Rule::attribute_section)),
        seq2(
            rule(Rule::t_const),
            seq2(
                rule(Rule::type_spec),
                seq2(
                    rule(Rule::name),
                    seq2(rule(Rule::t_equal), seq2(rule(Rule::constant), rule(Rule::t_semicolon))),
                ),
            ),
        ),
        s,
        pos,
    );
    lemma_opt(rule(Rule::attribute_section), s, pos);
    if let Some(q1) = ends(opt(rule(Rule::attribute_section)), s, pos) {
        let p1 = layout::behind(s, q1);
        lemma_cat(
            rule(Rule::t_const),
            seq2(
                rule(Rule::type_spec),
                seq2(
                    rule(Rule::name),
                    seq2(rule(Rule::t_equal), seq2(rule(Rule::constant), rule(Rule::t_semicolon))),
                ),
            ),
            s,
            p1,
        );
        if let Some(q2) = ends(rule(Rule::t_const), s, p1) {
            let p2 = layout::behind(s, q2);
            lemma_cat(
                rule(Rule::type_spec),
                seq2(
                    rule(Rule::name),
                    seq2(rule(Rule::t_equal), seq2(rule(Rule::constant), rule(Rule::t_semicolon))),
                ),
                s,
                p2,
            );
            if let Some(q3) = ends(rule(Rule::type_spec), s, p2) {
                let p3 = layout::behind(s, q3);
                lemma_cat(
                    rule(Rule::name),
                    seq2(rule(Rule::t_equal), seq2(rule(Rule::constant), rule(Rule::t_semicolon))),
                    s,
                    p3,
                );
                if let Some(q4) = ends(rule(Rule::name), s, p3) {
                    let p4 = layout::behind(s, q4);
                    lemma_cat(
                        rule(Rule::t_equal),
                        seq2(rule(Rule::constant), rule(Rule::t_semicolon)),
                        s,
                        p4,
                    );
                    if let Some(q5) = ends(rule(Rule::t_equal), s, p4) {
                        let p5 = layout::behind(s, q5);
                        lemma_cat(rule(Rule::constant), rule(Rule::t_semicolon), s, p5);
                    }
                }
            }
        }
    }
}

/// What a constant stands for is a literal or an identifier.
pub proof fn constants_are_these(s: Seq<u8>, pos: int)
    requires
        0 <= pos <= s.len(),
    ensures
        lexemes::end_of(Rule::constant, s, pos) == or_else(
            lexemes::end_of(Rule::literal, s, pos),
            lexemes::end_of(Rule::identifier, s, pos),
        ),
{
    reveal_with_fuel(moved::not_first, 12);
    lemma_rule(Rule::constant, s, pos);
    lemma_or(rule(Rule::literal), rule(Rule::identifier), s, pos);
}

/// A literal is one of the words `true`, `false` and `default`, a number or a string.
pub proof fn literals_are_these(s: Seq<u8>, pos: int)
    requires
        0 <= pos <= s.len(),
    ensures
        lexemes::end_of(Rule::literal, s, pos) == or_else(
            word_end(s, pos, "true"@),
            or_else(
                word_end(s, pos, "false"@),
                or_else(
                    word_end(s, pos, "default"@),
                    or_else(
                        lexemes::end_of(Rule::number, s, pos),
                        lexemes::end_of(Rule::string_literal, s, pos),
                    ),
                ),
            ),
        ),
{
    reveal_with_fuel(moved::not_first, 12);
    reveal_strlit("default");
    reveal_strlit("false");
    reveal_strlit("true");
    lemma_rule(Rule::literal, s, pos);
    lemma_or(
        keyword("true"),
        or2(
            keyword("false"),
            or2(keyword("default"), or2(rule(Rule::number), rule(Rule::string_literal))),
        ),
        s,
        pos,
    );
    lemma_word("true", s, pos);
    lemma_or(
        keyword("false"),
        or2(keyword("default"), or2(rule(Rule::number), rule(Rule::string_literal))),
        s,
        pos,
    );
    lemma_word("false", s, pos);
    lemma_or(keyword("default"), or2(rule(Rule::number), rule(Rule::string_literal)), s, pos);
    lemma_word("default", s, pos);
    lemma_or(rule(Rule::number), rule(Rule::string_literal), s, pos);
}

/// A number is a floating-point one or an integer.
pub proof fn numbers_are_these(s: Seq<u8>, pos: int)
    requires
        0 <= pos <= s.len(),
    ensures
        lexemes::end_of(Rule::number, s, pos) == or_else(
            lexemes::end_of(Rule::float, s, pos),
            lexemes::end_of(Rule::integer, s, pos),
        ),
{
    reveal_with_fuel(moved::not_first, 12);
    lemma_rule(Rule::number, s, pos);
    lemma_or(rule(Rule::float), rule(Rule::integer), s, pos);
}

/// Attributes stand in brackets, with commas between them. There may be none.
pub proof fn attributes_are_parsed(s: Seq<u8>, pos: int)
    requires
        0 <= pos <= s.len(),
    ensures
        lexemes::end_of(Rule::attribute_section, s, pos) == go(
            s,
            lexemes::end_of(Rule::t_lbracket, s, pos),
            |a: int| go(
                s,
                or_nothing(
                    go(
                        s,
                        lexemes::end_of(Rule::attribute, s, a),
                        |b: int| items_end(Rule::attribute, s, b),
                    ),
                    a,
                ),
                |c: int| lexemes::end_of(Rule::t_rbracket, s, c),
            ),
        ),
{
    reveal_with_fuel(moved::not_first, 12);
    lemma_rule(Rule::attribute_section, s, pos);
    lemma_cat(
        rule(Rule::t_lbracket),
        seq2(
            opt(
                seq2(rule(Rule::attribute), many(seq2(rule(Rule::t_comma), rule(Rule::attribute)))),
            ),
            rule(Rule::t_rbracket),
        ),
        s,
        pos,
    );
    if let Some(q1) = ends(rule(Rule::t_lbracket), s, pos) {
        let p1 = layout::behind(s, q1);
        lemma_cat(
            opt(
                seq2(rule(Rule::attribute), many(seq2(rule(Rule::t_comma), rule(Rule::attribute)))),
            ),
            rule(Rule::t_rbracket),
            s,
            p1,
        );
        lemma_opt(
            seq2(rule(Rule::attribute), many(seq2(rule(Rule::t_comma), rule(Rule::attribute)))),
            s,
            p1,
        );
        lemma_cat(
            rule(Rule::attribute),
            many(seq2(rule(Rule::t_comma), rule(Rule::attribute))),
            s,
            p1,
        );
        if let Some(q2) = ends(rule(Rule::attribute), s, p1) {
            let p2 = layout::behind(s, q2);
            lemma_items(Rule::attribute, s, p2);
        }
    }
}

/// An attribute is a name, and possibly an equals sign and a literal or an identifier.
pub proof fn attribute_is_parsed(s: Seq<u8>, pos: int)
    requires
        0 <= pos <= s.len(),
    ensures
        lexemes::end_of(Rule::attribute, s, pos) == go(
            s,
            lexemes::end_of(Rule::name, s, pos),
            |a: int| or_nothing(
                go(
                    s,
                    lexemes::end_of(Rule::t_equal, s, a),
                    |b: int| or_else(
                        lexemes::end_of(Rule::literal, s, b),
                        lexemes::end_of(Rule::identifier, s, b),
                    ),
                ),
                a,
            ),
        ),
{
    reveal_with_fuel(moved::not_first, 12);
    lemma_rule(Rule::attribute, s, pos);
    lemma_cat(
        rule(Rule::name),
        opt(seq2(rule(Rule::t_equal), or2(rule(Rule::literal), rule(Rule::identifier)))),
        s,
        pos,
    );
    if let Some(q1) = ends(rule(Rule::name), s, pos) {
        let p1 = layout::behind(s, q1);
        lemma_opt(
            seq2(rule(Rule::t_equal), or2(rule(Rule::literal), rule(Rule::identifier))),
            s,
            p1,
        );
        lemma_cat(rule(Rule::t_equal), or2(rule(Rule::literal), rule(Rule::identifier)), s, p1);
        if let Some(q2) = ends(rule(Rule::t_equal), s, p1) {
            let p2 = layout::behind(s, q2);
            lemma_or(rule(Rule::literal), rule(Rule::identifier), s, p2);
        }
    }
}

/// A type is its name, and possibly a question mark.
pub proof fn type_is_parsed(s: Seq<u8>, pos: int)
    requires
        0 <= pos <= s.len(),
    ensures
        lexemes::end_of(Rule::type_spec, s, pos) == go(
            s,
            lexemes::end_of(Rule::typename, s, pos),
            |a: int| or_nothing(lexemes::end_of(Rule::t_nullable, s, a), a),
        ),
{
    reveal_with_fuel(moved::not_first, 12);
    lemma_rule(Rule::type_spec, s, pos);
    lemma_cat(rule(Rule::typename), opt(rule(Rule::t_nullable)), s, pos);
    if let Some(q1) = ends(rule(Rule::typename), s, pos) {
        let p1 = layout::behind(s, q1);
        lemma_opt(rule(Rule::t_nullable), s, p1);
    }
}

/// The name of a type is that of an array, a map, an interface request or a simple type.
pub proof fn types_are_these(s: Seq<u8>, pos: int)
    requires
        0 <= pos <= s.len(),
    ensures
        lexemes::end_of(Rule::typename, s, pos) == or_else(
            lexemes::end_of(Rule::array, s, pos),
            or_else(
                lexemes::end_of(Rule::map, s, pos),
                or_else(
                    lexemes::end_of(Rule::interface_request, s, pos),
                    lexemes::end_of(Rule::basic_typename, s, pos),
                ),
            ),
        ),
{
    reveal_with_fuel(moved::not_first, 12);
    lemma_rule(Rule::typename, s, pos);
    lemma_or(
        rule(Rule::array),
        or2(rule(Rule::map), or2(rule(Rule::interface_request), rule(Rule::basic_typename))),
        s,
        pos,
    );
    lemma_or(
        rule(Rule::map),
        or2(rule(Rule::interface_request), rule(Rule::basic_typename)),
        s,
        pos,
    );
    lemma_or(rule(Rule::interface_request), rule(Rule::basic_typename), s, pos);
}

/// An array is the word `array` and, in angle brackets, the type of its elements, and possibly a
/// comma and its length.
pub proof fn array_is_parsed(s: Seq<u8>, pos: int)
    requires
        0 <= pos <= s.len(),
    ensures
        lexemes::end_of(Rule::array, s, pos) == go(
            s,
            lexemes::end_of(Rule::t_array, s, pos),
            |a: int| go(
                s,
                lexemes::end_of(Rule::t_langlebracket, s, a),
                |b: int| go(
                    s,
                    lexemes::end_of(Rule::type_spec, s, b),
                    |c: int| go(
                        s,
                        or_nothing(
                            go(
                                s,
                                lexemes::end_of(Rule::t_comma, s, c),
                                |d: int| lexemes::end_of(Rule::integer, s, d),
                            ),
                            c,
                        ),
                        |e: int| lexemes::end_of(Rule::t_ranglebracket, s, e),
                    ),
                ),
            ),
        ),
{
    reveal_with_fuel(moved::not_first, 12);
    lemma_rule(Rule::array, s, pos);
    lemma_cat(
        rule(Rule::t_array),
        seq2(
            rule(Rule::t_langlebracket),
            seq2(
                rule(Rule::type_spec),
                seq2(
                    opt(seq2(rule(Rule::t_comma), rule(Rule::integer))),
                    rule(Rule::t_ranglebracket),
                ),
            ),
        ),
        s,
        pos,
    );
    if let Some(q1) = ends(rule(Rule::t_array), s, pos) {
        let p1 = layout::behind(s, q1);
        lemma_cat(
            rule(Rule::t_langlebracket),
            seq2(
                rule(Rule::type_spec),
                seq2(
                    opt(seq2(rule(Rule::t_comma), rule(Rule::integer))),
                    rule(Rule::t_ranglebracket),
                ),
            ),
            s,
            p1,
        );
        if let Some(q2) = ends(rule(Rule::t_langlebracket), s, p1) {
            let p2 = layout::behind(s, q2);
            lemma_cat(
                rule(Rule::type_spec),
                seq2(
                    opt(seq2(rule(Rule::t_comma), rule(Rule::integer))),
                    rule(Rule::t_ranglebracket),
                ),
                s,
                p2,
            );
            if let Some(q3) = ends(rule(Rule::type_spec), s, p2) {
                let p3 = layout::behind(s, q3);
                lemma_cat(
                    opt(seq2(rule(Rule::t_comma), rule(Rule::integer))),
                    rule(Rule::t_ranglebracket),
                    s,
                    p3,
                );
                lemma_opt(seq2(rule(Rule::t_comma), rule(Rule::integer)), s, p3);
                lemma_cat(rule(Rule::t_comma), rule(Rule::integer), s, p3);
            }
        }
    }
}

/// A map is the word `map` and, in angle brackets, the name of the type of its keys, a comma and
/// the type of its values.
pub proof fn map_is_parsed(s: Seq<u8>, pos: int)
    requires
        0 <= pos <= s.len(),
    ensures
        lexemes::end_of(Rule::map, s, pos) == go(
            s,
            lexemes::end_of(Rule::t_map, s, pos),
            |a: int| go(
                s,
                lexemes::end_of(Rule::t_langlebracket, s, a),
                |b: int| go(
                    s,
                    lexemes::end_of(Rule::identifier, s, b),
                    |c: int| go(
                        s,
                        lexemes::end_of(Rule::t_comma, s, c),
                        |d: int| go(
                            s,
                            lexemes::end_of(Rule::type_spec, s, d),
                            |e: int| lexemes::end_of(Rule::t_ranglebracket, s, e),
                        ),
                    ),
                ),
            ),
        ),
{
    reveal_with_fuel(moved::not_first, 12);
    lemma_rule(Rule::map, s, pos);
    lemma_cat(
        rule(Rule::t_map),
        seq2(
            rule(Rule::t_langlebracket),
            seq2(
                rule(Rule::identifier),
                seq2(rule(Rule::t_comma), seq2(rule(Rule::type_spec), rule(Rule::t_ranglebracket))),
            ),
        ),
        s,
        pos,
    );
    if let Some(q1) = ends(rule(Rule::t_map), s, pos) {
        let p1 = layout::behind(s, q1);
        lemma_cat(
            rule(Rule::t_langlebracket),
            seq2(
                rule(Rule::identifier),
                seq2(rule(Rule::t_comma), seq2(rule(Rule::type_spec), rule(Rule::t_ranglebracket))),
            ),
            s,
            p1,
        );
        if let Some(q2) = ends(rule(Rule::t_langlebracket), s, p1) {
            let p2 = layout::behind(s, q2);
            lemma_cat(
                rule(Rule::identifier),
                seq2(rule(Rule::t_comma), seq2(rule(Rule::type_spec), rule(Rule::t_ranglebracket))),
                s,
                p2,
            );
            if let Some(q3) = ends(rule(Rule::identifier), s, p2) {
                let p3 = layout::behind(s, q3);
                lemma_cat(
                    rule(Rule::t_comma),
                    seq2(rule(Rule::type_spec), rule(Rule::t_ranglebracket)),
                    s,
                    p3,
                );
                if let Some(q4) = ends(rule(Rule::t_comma), s, p3) {
                    let p4 = layout::behind(s, q4);
                    lemma_cat(rule(Rule::type_spec), rule(Rule::t_ranglebracket), s, p4);
                }
            }
        }
    }
}

/// An interface request is a simple type and an ampersand.
pub proof fn interface_request_is_parsed(s: Seq<u8>, pos: int)
    requires
        0 <= pos <= s.len(),
    ensures
        lexemes::end_of(Rule::interface_request, s, pos) == go(
            s,
            lexemes::end_of(Rule::basic_typename, s, pos),
            |a: int| lexemes::end_of(Rule::t_amp, s, a),
        ),
{
    reveal_with_fuel(moved::not_first, 12);
    lemma_rule(Rule::interface_request, s, pos);
    lemma_cat(rule(Rule::basic_typename), rule(Rule::t_amp), s, pos);
}

/// A simple type is a handle, a pending type, an associated type, a numeric type or an
/// identifier.
pub proof fn simple_types_are_these(s: Seq<u8>, pos: int)
    requires
        0 <= pos <= s.len(),
    ensures
        lexemes::end_of(Rule::basic_typename, s, pos) == or_else(
            lexemes::end_of(Rule::handle_type, s, pos),
            or_else(
                lexemes::end_of(Rule::pending_type, s, pos),
                or_else(
                    lexemes::end_of(Rule::associated_type, s, pos),
                    or_else(
                        lexemes::end_of(Rule::numeric_type, s, pos),
                        lexemes::end_of(Rule::identifier, s, pos),
                    ),
                ),
            ),
        ),
{
    reveal_with_fuel(moved::not_first, 12);
    lemma_rule(Rule::basic_typename, s, pos);
    lemma_or(
        rule(Rule::handle_type),
        or2(
            rule(Rule::pending_type),
            or2(rule(Rule::associated_type), or2(rule(Rule::numeric_type), rule(Rule::identifier))),
        ),
        s,
        pos,
    );
    lemma_or(
        rule(Rule::pending_type),
        or2(rule(Rule::associated_type), or2(rule(Rule::numeric_type), rule(Rule::identifier))),
        s,
        pos,
    );
    lemma_or(
        rule(Rule::associated_type),
        or2(rule(Rule::numeric_type), rule(Rule::identifier)),
        s,
        pos,
    );
    lemma_or(rule(Rule::numeric_type), rule(Rule::identifier), s, pos);
}

/// A handle is the word `handle`, and possibly its kind in angle brackets.
pub proof fn handle_is_parsed(s: Seq<u8>, pos: int)
    requires
        0 <= pos <= s.len(),
    ensures
        lexemes::end_of(Rule::handle_type, s, pos) == or_else(
            go(
                s,
                lexemes::end_of(Rule::t_handle, s, pos),
                |a: int| go(
                    s,
                    lexemes::end_of(Rule::t_langlebracket, s, a),
                    |b: int| go(
                        s,
                        lexemes::end_of(Rule::specific_handle_type, s, b),
                        |c: int| lexemes::end_of(Rule::t_ranglebracket, s, c),
                    ),
                ),
            ),
            lexemes::end_of(Rule::t_handle, s, pos),
        ),
{
    reveal_with_fuel(moved::not_first, 12);
    lemma_rule(Rule::handle_type, s, pos);
    lemma_or(
        seq2(
            rule(Rule::t_handle),
            seq2(
                rule(Rule::t_langlebracket),
                seq2(rule(Rule::specific_handle_type), rule(Rule::t_ranglebracket)),
            ),
        ),
        rule(Rule::t_handle),
        s,
        pos,
    );
    lemma_cat(
        rule(Rule::t_handle),
        seq2(
            rule(Rule::t_langlebracket),
            seq2(rule(Rule::specific_handle_type), rule(Rule::t_ranglebracket)),
        ),
        s,
        pos,
    );
    if let Some(q1) = ends(rule(Rule::t_handle), s, pos) {
        let p1 = layout::behind(s, q1);
        lemma_cat(
            rule(Rule::t_langlebracket),
            seq2(rule(Rule::specific_handle_type), rule(Rule::t_ranglebracket)),
            s,
            p1,
        );
        if let Some(q2) = ends(rule(Rule::t_langlebracket), s, p1) {
            let p2 = layout::behind(s, q2);
            lemma_cat(rule(Rule::specific_handle_type), rule(Rule::t_ranglebracket), s, p2);
        }
    }
}

/// One of the four words of a pending type.
#[verifier::spinoff_prover]
proof fn lemma_pending_words(s: Seq<u8>, pos: int)
    requires
        0 <= pos <= s.len(),
    ensures
        ends(
            or4(
                keyword("pending_remote"),
                keyword("pending_receiver"),
                keyword("pending_associated_remote"),
                keyword("pending_associated_receiver"),
            ),
            s,
            pos,
        ) == or_else(
            word_end(s, pos, "pending_remote"@),
            or_else(
                word_end(s, pos, "pending_receiver"@),
                or_else(
                    word_end(s, pos, "pending_associated_remote"@),
                    word_end(s, pos, "pending_associated_receiver"@),
                ),
            ),
        ),
{
    let a = keyword("pending_remote");
    let b = keyword("pending_receiver");
    let c = keyword("pending_associated_remote");
    let d = keyword("pending_associated_receiver");
    reveal_with_fuel(moved::not_first, 4);
    assert(vstd::utf8::is_ascii_chars("pending_remote"@)) by {
        reveal_strlit("pending_remote");
    }
    lemma_word("pending_remote", s, pos);
    assert(vstd::utf8::is_ascii_chars("pending_receiver"@)) by {
        reveal_strlit("pending_receiver");
    }
    lemma_word("pending_receiver", s, pos);
    assert(vstd::utf8::is_ascii_chars("pending_associated_remote"@)) by {
        reveal_strlit("pending_associated_remote");
    }
    lemma_word("pending_associated_remote", s, pos);
    assert(vstd::utf8::is_ascii_chars("pending_associated_receiver"@)) by {
        reveal_strlit("pending_associated_receiver");
    }
    lemma_word("pending_associated_receiver", s, pos);
    lemma_or(c, d, s, pos);
    lemma_or(b, or2(c, d), s, pos);
    lemma_or(a, or3(b, c, d), s, pos);
}

/// A pending type is one of four words and, in angle brackets, an identifier.
pub proof fn pending_type_is_parsed(s: Seq<u8>, pos: int)
    requires
        0 <= pos <= s.len(),
    ensures
        lexemes::end_of(Rule::pending_type, s, pos) == go(
            s,
            or_else(
                word_end(s, pos, "pending_remote"@),
                or_else(
                    word_end(s, pos, "pending_receiver"@),
                    or_else(
                        word_end(s, pos, "pending_associated_remote"@),
                        word_end(s, pos, "pending_associated_receiver"@),
                    ),
                ),
            ),
            |a: int| go(
                s,
                lexemes::end_of(Rule::t_langlebracket, s, a),
                |b: int| go(
                    s,
                    lexemes::end_of(Rule::identifier, s, b),
                    |c: int| lexemes::end_of(Rule::t_ranglebracket, s, c),
                ),
            ),
        ),
{
    reveal_with_fuel(moved::not_first, 12);
    lemma_rule(Rule::pending_type, s, pos);
    lemma_pending_words(s, pos);
    lemma_cat(
        or2(
            keyword("pending_remote"),
            or2(
                keyword("pending_receiver"),
                or2(keyword("pending_associated_remote"), keyword("pending_associated_receiver")),
            ),
        ),
        seq2(
            rule(Rule::t_langlebracket),
            seq2(rule(Rule::identifier), rule(Rule::t_ranglebracket)),
        ),
        s,
        pos,
    );
    if let Some(q1) = ends(
        or4(
            keyword("pending_remote"),
            keyword("pending_receiver"),
            keyword("pending_associated_remote"),
            keyword("pending_associated_receiver"),
        ),
        s,
        pos,
    ) {
        let p1 = layout::behind(s, q1);
        lemma_cat(
            rule(Rule::t_langlebracket),
            seq2(rule(Rule::identifier), rule(Rule::t_ranglebracket)),
            s,
            p1,
        );
        if let Some(q2) = ends(rule(Rule::t_langlebracket), s, p1) {
            let p2 = layout::behind(s, q2);
            lemma_cat(rule(Rule::identifier), rule(Rule::t_ranglebracket), s, p2);
        }
    }
}

/// An associated type is the word `associated` and an identifier.
pub proof fn associated_type_is_parsed(s: Seq<u8>, pos: int)
    requires
        0 <= pos <= s.len(),
    ensures
        lexemes::end_of(Rule::associated_type, s, pos) == go(
            s,
            lexemes::end_of(Rule::t_associated, s, pos),
            |a: int| lexemes::end_of(Rule::identifier, s, a),
        ),
{
    reveal_with_fuel(moved::not_first, 12);
    lemma_rule(Rule::associated_type, s, pos);
    lemma_cat(rule(Rule::t_associated), rule(Rule::identifier), s, pos);
}

/// Where the sign `c` at `pos` ends, where it stands there.
pub open spec fn sign_end(s: Seq<u8>, pos: int, c: char) -> Option<int> {
    if lexemes::mark(s, pos, c) {
        Some(pos + 1)
    } else {
        None
    }
}

/// Where a match of `e`, taken as a whole, ends.
spec fn whole_ends(e: Expr, s: Seq<u8>, pos: int, bound: nat) -> Option<int> {
    match peg::run(e, s, pos as nat, peg::empty_trace(), true, bound).hit {
        Some(h) => Some(pos + h.len),
        None => None,
    }
}

proof fn lemma_whole_rule(r: Rule, s: Seq<u8>, pos: int)
    requires
        0 <= pos <= s.len(),
        is_atomic(r),
    ensures
        lexemes::end_of(r, s, pos) == whole_ends(rule_body(r), s, pos, rank(r) as nat),
{
    lexemes::lemma_atomic_rule(r, s, pos as nat, peg::empty_trace(), TOP_RANK as nat);
}

proof fn lemma_whole_word(w: &'static str, s: Seq<u8>, pos: int, bound: nat)
    requires
        0 <= pos <= s.len(),
        vstd::utf8::is_ascii_chars(w@),
    ensures
        whole_ends(keyword(w), s, pos, bound) == word_end(s, pos, w@),
{
    written::lemma_word_stands(w@, s, pos);
}

proof fn lemma_whole_sign(w: &'static str, c: char, s: Seq<u8>, pos: int, bound: nat)
    requires
        0 <= pos <= s.len(),
        w@ == seq![c],
        c <= '\u{7f}',
    ensures
        whole_ends(word(w), s, pos, bound) == sign_end(s, pos, c),
{
    assert(vstd::utf8::is_ascii_chars(w@));
    written::lemma_word_stands(w@, s, pos);
    if peg::stands_at(text::utf8(w@), s, pos) {
        assert(s[pos + 0] == w@[0] as u32);
    }
    if lexemes::mark(s, pos, c) {
        assert forall|i: int| 0 <= i < w@.len() implies s[pos + i] == #[trigger] w@[i] as u32 by {
            assert(i == 0);
        }
    }
}

proof fn lemma_word_rule(r: Rule, w: &'static str, s: Seq<u8>, pos: int)
    requires
        0 <= pos <= s.len(),
        is_atomic(r),
        rule_body(r) == keyword(w),
        vstd::utf8::is_ascii_chars(w@),
    ensures
        lexemes::end_of(r, s, pos) == word_end(s, pos, w@),
{
    lemma_whole_word(w, s, pos, rank(r) as nat);
    lemma_whole_rule(r, s, pos);
}

/// The words that statements start with, each a whole word.
#[verifier::spinoff_prover]
pub proof fn words_of_statements(s: Seq<u8>, pos: int)
    requires
        0 <= pos <= s.len(),
    ensures
        lexemes::end_of(Rule::t_module, s, pos) == word_end(s, pos, "module"@),
        lexemes::end_of(Rule::t_import, s, pos) == word_end(s, pos, "import"@),
        lexemes::end_of(Rule::t_interface, s, pos) == word_end(s, pos, "interface"@),
        lexemes::end_of(Rule::t_struct, s, pos) == word_end(s, pos, "struct"@),
{
    assert(lexemes::end_of(Rule::t_module, s, pos) == word_end(s, pos, "module"@)) by {
        assert(vstd::utf8::is_ascii_chars("module"@)) by {
            reveal_strlit("module");
        }
        lemma_word_rule(Rule::t_module, "module", s, pos);
    }
    assert(lexemes::end_of(Rule::t_import, s, pos) == word_end(s, pos, "import"@)) by {
        assert(vstd::utf8::is_ascii_chars("import"@)) by {
            reveal_strlit("import");
        }
        lemma_word_rule(Rule::t_import, "import", s, pos);
    }
    assert(lexemes::end_of(Rule::t_interface, s, pos) == word_end(s, pos, "interface"@)) by {
        assert(vstd::utf8::is_ascii_chars("interface"@)) by {
            reveal_strlit("interface");
        }
        lemma_word_rule(Rule::t_interface, "interface", s, pos);
    }
    assert(lexemes::end_of(Rule::t_struct, s, pos) == word_end(s, pos, "struct"@)) by {
        assert(vstd::utf8::is_ascii_chars("struct"@)) by {
            reveal_strlit("struct");
        }
        lemma_word_rule(Rule::t_struct, "struct", s, pos);
    }
}

/// The words that unions and constants start with, each a whole word.
#[verifier::spinoff_prover]
pub proof fn words_of_other_statements(s: Seq<u8>, pos: int)
    requires
        0 <= pos <= s.len(),
    ensures
        lexemes::end_of(Rule::t_union, s, pos) == word_end(s, pos, "union"@),
        lexemes::end_of(Rule::t_const, s, pos) == word_end(s, pos, "const"@),
{
    assert(lexemes::end_of(Rule::t_union, s, pos) == word_end(s, pos, "union"@)) by {
        assert(vstd::utf8::is_ascii_chars("union"@)) by {
            reveal_strlit("union");
        }
        lemma_word_rule(Rule::t_union, "union", s, pos);
    }
    assert(lexemes::end_of(Rule::t_const, s, pos) == word_end(s, pos, "const"@)) by {
        assert(vstd::utf8::is_ascii_chars("const"@)) by {
            reveal_strlit("const");
        }
        lemma_word_rule(Rule::t_const, "const", s, pos);
    }
}

/// The words that types start with, each a whole word.
#[verifier::spinoff_prover]
pub proof fn words_of_types(s: Seq<u8>, pos: int)
    requires
        0 <= pos <= s.len(),
    ensures
        lexemes::end_of(Rule::t_array, s, pos) == word_end(s, pos, "array"@),
        lexemes::end_of(Rule::t_map, s, pos) == word_end(s, pos, "map"@),
        lexemes::end_of(Rule::t_handle, s, pos) == word_end(s, pos, "handle"@),
        lexemes::end_of(Rule::t_associated, s, pos) == word_end(s, pos, "associated"@),
{
    assert(lexemes::end_of(Rule::t_array, s, pos) == word_end(s, pos, "array"@)) by {
        assert(vstd::utf8::is_ascii_chars("array"@)) by {
            reveal_strlit("array");
        }
        lemma_word_rule(Rule::t_array, "array", s, pos);
    }
    assert(lexemes::end_of(Rule::t_map, s, pos) == word_end(s, pos, "map"@)) by {
        assert(vstd::utf8::is_ascii_chars("map"@)) by {
            reveal_strlit("map");
        }
        lemma_word_rule(Rule::t_map, "map", s, pos);
    }
    assert(lexemes::end_of(Rule::t_handle, s, pos) == word_end(s, pos, "handle"@)) by {
        assert(vstd::utf8::is_ascii_chars("handle"@)) by {
            reveal_strlit("handle");
        }
        lemma_word_rule(Rule::t_handle, "handle", s, pos);
    }
    assert(lexemes::end_of(Rule::t_associated, s, pos) == word_end(s, pos, "associated"@)) by {
        assert(vstd::utf8::is_ascii_chars("associated"@)) by {
            reveal_strlit("associated");
        }
        lemma_word_rule(Rule::t_associated, "associated", s, pos);
    }
}

/// The signs of the grammar are these.
pub proof fn signs_are_these(s: Seq<u8>, pos: int)
    requires
        0 <= pos <= s.len(),
    ensures
        lexemes::end_of(Rule::t_amp, s, pos) == sign_end(s, pos, '&'),
        lexemes::end_of(Rule::t_comma, s, pos) == sign_end(s, pos, ','),
        lexemes::end_of(Rule::t_equal, s, pos) == sign_end(s, pos, '='),
        lexemes::end_of(Rule::t_langlebracket, s, pos) == sign_end(s, pos, '<'),
        lexemes::end_of(Rule::t_lbrace, s, pos) == sign_end(s, pos, '{'),
        lexemes::end_of(Rule::t_lbracket, s, pos) == sign_end(s, pos, '['),
        lexemes::end_of(Rule::t_lparen, s, pos) == sign_end(s, pos, '('),
        lexemes::end_of(Rule::t_nullable, s, pos) == sign_end(s, pos, '?'),
        lexemes::end_of(Rule::t_ranglebracket, s, pos) == sign_end(s, pos, '>'),
        lexemes::end_of(Rule::t_rbrace, s, pos) == sign_end(s, pos, '}'),
        lexemes::end_of(Rule::t_rbracket, s, pos) == sign_end(s, pos, ']'),
        lexemes::end_of(Rule::t_rparen, s, pos) == sign_end(s, pos, ')'),
        lexemes::end_of(Rule::t_semicolon, s, pos) == sign_end(s, pos, ';'),
{
    assert(lexemes::end_of(Rule::t_amp, s, pos) == sign_end(s, pos, '&')) by {
        reveal_strlit("&");
        assert("&"@ =~= seq!['&']);
        lemma_whole_sign("&", '&', s, pos, rank(Rule::t_amp) as nat);
        lemma_whole_rule(Rule::t_amp, s, pos);
    }
    assert(lexemes::end_of(Rule::t_comma, s, pos) == sign_end(s, pos, ',')) by {
        reveal_strlit(",");
        assert(","@ =~= seq![',']);
        lemma_whole_sign(",", ',', s, pos, rank(Rule::t_comma) as nat);
        lemma_whole_rule(Rule::t_comma, s, pos);
    }
    assert(lexemes::end_of(Rule::t_equal, s, pos) == sign_end(s, pos, '=')) by {
        reveal_strlit("=");
        assert("="@ =~= seq!['=']);
        lemma_whole_sign("=", '=', s, pos, rank(Rule::t_equal) as nat);
        lemma_whole_rule(Rule::t_equal, s, pos);
    }
    assert(lexemes::end_of(Rule::t_langlebracket, s, pos) == sign_end(s, pos, '<')) by {
        reveal_strlit("<");
        assert("<"@ =~= seq!['<']);
        lemma_whole_sign("<", '<', s, pos, rank(Rule::t_langlebracket) as nat);
        lemma_whole_rule(Rule::t_langlebracket, s, pos);
    }
    assert(lexemes::end_of(Rule::t_lbrace, s, pos) == sign_end(s, pos, '{')) by {
        reveal_strlit("{");
        assert("{"@ =~= seq!['{']);
        lemma_whole_sign("{", '{', s, pos, rank(Rule::t_lbrace) as nat);
        lemma_whole_rule(Rule::t_lbrace, s, pos);
    }
    assert(lexemes::end_of(Rule::t_lbracket, s, pos) == sign_end(s, pos, '[')) by {
        reveal_strlit("[");
        assert("["@ =~= seq!['[']);
        lemma_whole_sign("[", '[', s, pos, rank(Rule::t_lbracket) as nat);
        lemma_whole_rule(Rule::t_lbracket, s, pos);
    }
    assert(lexemes::end_of(Rule::t_lparen, s, pos) == sign_end(s, pos, '(')) by {
        reveal_strlit("(");
        assert("("@ =~= seq!['(']);
        lemma_whole_sign("(", '(', s, pos, rank(Rule::t_lparen) as nat);
        lemma_whole_rule(Rule::t_lparen, s, pos);
    }
    assert(lexemes::end_of(Rule::t_nullable, s, pos) == sign_end(s, pos, '?')) by {
        reveal_strlit("?");
        assert("?"@ =~= seq!['?']);
        lemma_whole_sign("?", '?', s, pos, rank(Rule::t_nullable) as nat);
        lemma_whole_rule(Rule::t_nullable, s, pos);
    }
    assert(lexemes::end_of(Rule::t_ranglebracket, s, pos) == sign_end(s, pos, '>')) by {
        reveal_strlit(">");
        assert(">"@ =~= seq!['>']);
        lemma_whole_sign(">", '>', s, pos, rank(Rule::t_ranglebracket) as nat);
        lemma_whole_rule(Rule::t_ranglebracket, s, pos);
    }
    assert(lexemes::end_of(Rule::t_rbrace, s, pos) == sign_end(s, pos, '}')) by {
        reveal_strlit("}");
        assert("}"@ =~= seq!['}']);
        lemma_whole_sign("}", '}', s, pos, rank(Rule::t_rbrace) as nat);
        lemma_whole_rule(Rule::t_rbrace, s, pos);
    }
    assert(lexemes::end_of(Rule::t_rbracket, s, pos) == sign_end(s, pos, ']')) by {
        reveal_strlit("]");
        assert("]"@ =~= seq![']']);
        lemma_whole_sign("]", ']', s, pos, rank(Rule::t_rbracket) as nat);
        lemma_whole_rule(Rule::t_rbracket, s, pos);
    }
    assert(lexemes::end_of(Rule::t_rparen, s, pos) == sign_end(s, pos, ')')) by {
        reveal_strlit(")");
        assert(")"@ =~= seq![')']);
        lemma_whole_sign(")", ')', s, pos, rank(Rule::t_rparen) as nat);
        lemma_whole_rule(Rule::t_rparen, s, pos);
    }
    assert(lexemes::end_of(Rule::t_semicolon, s, pos) == sign_end(s, pos, ';')) by {
        reveal_strlit(";");
        assert(";"@ =~= seq![';']);
        lemma_whole_sign(";", ';', s, pos, rank(Rule::t_semicolon) as nat);
        lemma_whole_rule(Rule::t_semicolon, s, pos);
    }
}

/// The arrow in front of a response is `=>`.
pub proof fn arrow_is_two_signs(s: Seq<u8>, pos: int)
    requires
        0 <= pos <= s.len(),
    ensures
        lexemes::end_of(Rule::t_arrow, s, pos) == (if lexemes::mark(s, pos, '=') && lexemes::mark(
            s,
            pos + 1,
            '>',
        ) {
            Some(pos + 2)
        } else {
            None
        }),
{
    let w = "=>"@;
    reveal_strlit("=>");
    assert(vstd::utf8::is_ascii_chars(w));
    lemma_whole_rule(Rule::t_arrow, s, pos);
    written::lemma_word_stands(w, s, pos);
    if peg::stands_at(text::utf8(w), s, pos) {
        assert(s[pos + 0] == w[0] as u32 && s[pos + 1] == w[1] as u32);
    }
    if lexemes::mark(s, pos, '=') && lexemes::mark(s, pos + 1, '>') {
        assert forall|i: int| 0 <= i < w.len() implies s[pos + i] == #[trigger] w[i] as u32 by {
            assert(i == 0 || i == 1);
        }
    }
}

/// A word, or else what `e` matches, both taken as a whole.
proof fn lemma_or_word(w: &'static str, e: Expr, s: Seq<u8>, pos: int, bound: nat)
    requires
        0 <= pos <= s.len(),
        vstd::utf8::is_ascii_chars(w@),
    ensures
        whole_ends(or2(keyword(w), e), s, pos, bound) == or_else(
            word_end(s, pos, w@),
            whole_ends(e, s, pos, bound),
        ),
{
    lemma_whole_word(w, s, pos, bound);
    let t = peg::empty_trace();
    assert(peg::run(keyword(w), s, pos as nat, t, true, bound).trace == t);
}

/// The first of three words, or else what `e` matches, all taken as a whole.
proof fn lemma_or_words(
    a: &'static str,
    b: &'static str,
    c: &'static str,
    e: Expr,
    s: Seq<u8>,
    pos: int,
    bound: nat,
)
    requires
        0 <= pos <= s.len(),
        vstd::utf8::is_ascii_chars(a@),
        vstd::utf8::is_ascii_chars(b@),
        vstd::utf8::is_ascii_chars(c@),
    ensures
        whole_ends(or4(keyword(a), keyword(b), keyword(c), e), s, pos, bound) == or_else(
            word_end(s, pos, a@),
            or_else(
                word_end(s, pos, b@),
                or_else(word_end(s, pos, c@), whole_ends(e, s, pos, bound)),
            ),
        ),
{
    lemma_or_word(c, e, s, pos, bound);
    lemma_or_word(b, or2(keyword(c), e), s, pos, bound);
    lemma_or_word(a, or3(keyword(b), keyword(c), e), s, pos, bound);
}

/// The numeric types are these words.
#[verifier::spinoff_prover]
pub proof fn numeric_types_are_these(s: Seq<u8>, pos: int)
    requires
        0 <= pos <= s.len(),
    ensures
        lexemes::end_of(Rule::numeric_type, s, pos) == or_else(
            word_end(s, pos, "bool"@),
            or_else(
                word_end(s, pos, "int8"@),
                or_else(
                    word_end(s, pos, "uint8"@),
                    or_else(
                        word_end(s, pos, "int16"@),
                        or_else(
                            word_end(s, pos, "uint16"@),
                            or_else(
                                word_end(s, pos, "int32"@),
                                or_else(
                                    word_end(s, pos, "uint32"@),
                                    or_else(
                                        word_end(s, pos, "int64"@),
                                        or_else(
                                            word_end(s, pos, "uint64"@),
                                            or_else(
                                                word_end(s, pos, "float"@),
                                                word_end(s, pos, "double"@),
                                            ),
                                        ),
                                    ),
                                ),
                            ),
                        ),
                    ),
                ),
            ),
        ),
{
    let b = rank(Rule::numeric_type) as nat;
    assert(vstd::utf8::is_ascii_chars("bool"@)) by {
        reveal_strlit("bool");
    }
    assert(vstd::utf8::is_ascii_chars("int8"@)) by {
        reveal_strlit("int8");
    }
    assert(vstd::utf8::is_ascii_chars("uint8"@)) by {
        reveal_strlit("uint8");
    }
    assert(vstd::utf8::is_ascii_chars("int16"@)) by {
        reveal_strlit("int16");
    }
    assert(vstd::utf8::is_ascii_chars("uint16"@)) by {
        reveal_strlit("uint16");
    }
    assert(vstd::utf8::is_ascii_chars("int32"@)) by {
        reveal_strlit("int32");
    }
    assert(vstd::utf8::is_ascii_chars("uint32"@)) by {
        reveal_strlit("uint32");
    }
    assert(vstd::utf8::is_ascii_chars("int64"@)) by {
        reveal_strlit("int64");
    }
    assert(vstd::utf8::is_ascii_chars("uint64"@)) by {
        reveal_strlit("uint64");
    }
    assert(vstd::utf8::is_ascii_chars("float"@)) by {
        reveal_strlit("float");
    }
    assert(vstd::utf8::is_ascii_chars("double"@)) by {
        reveal_strlit("double");
    }
    let e3 = or2(keyword("float"), keyword("double"));
    let e2 = or4(keyword("uint32"), keyword("int64"), keyword("uint64"), e3);
    let e1 = or4(keyword("int16"), keyword("uint16"), keyword("int32"), e2);
    lemma_or_words("bool", "int8", "uint8", e1, s, pos, b);
    lemma_or_words("int16", "uint16", "int32", e2, s, pos, b);
    lemma_or_words("uint32", "int64", "uint64", e3, s, pos, b);
    lemma_or_word("float", keyword("double"), s, pos, b);
    lemma_whole_word("double", s, pos, b);
    lemma_whole_rule(Rule::numeric_type, s, pos);
}

/// The kinds of handles are these words.
#[verifier::spinoff_prover]
pub proof fn handles_are_these(s: Seq<u8>, pos: int)
    requires
        0 <= pos <= s.len(),
    ensures
        lexemes::end_of(Rule::specific_handle_type, s, pos) == or_else(
            word_end(s, pos, "message_pipe"@),
            or_else(
                word_end(s, pos, "shared_buffer"@),
                or_else(
                    word_end(s, pos, "data_pipe_consumer"@),
                    or_else(
                        word_end(s, pos, "data_pipe_producer"@),
                        word_end(s, pos, "platform"@),
                    ),
                ),
            ),
        ),
{
    let b = rank(Rule::specific_handle_type) as nat;
    assert(vstd::utf8::is_ascii_chars("message_pipe"@)) by {
        reveal_strlit("message_pipe");
    }
    assert(vstd::utf8::is_ascii_chars("shared_buffer"@)) by {
        reveal_strlit("shared_buffer");
    }
    assert(vstd::utf8::is_ascii_chars("data_pipe_consumer"@)) by {
        reveal_strlit("data_pipe_consumer");
    }
    assert(vstd::utf8::is_ascii_chars("data_pipe_producer"@)) by {
        reveal_strlit("data_pipe_producer");
    }
    assert(vstd::utf8::is_ascii_chars("platform"@)) by {
        reveal_strlit("platform");
    }
    let e1 = or2(keyword("data_pipe_producer"), keyword("platform"));
    lemma_or_words("message_pipe", "shared_buffer", "data_pipe_consumer", e1, s, pos, b);
    lemma_or_word("data_pipe_producer", keyword("platform"), s, pos, b);
    lemma_whole_word("platform", s, pos, b);
    lemma_whole_rule(Rule::specific_handle_type, s, pos);
}

/// A text is a Mojom file exactly if statements, one behind the other, are all that it holds but
/// for white space and comments.
pub proof fn file_is_statements(input: Seq<char>)
    ensures
        syntax::is_mojom(input) <==> ({
            let s = text::utf8(input);
            let end = rows_end(Rule::statement, s, layout::behind(s, 0))->0;
            layout::behind(s, end) == s.len()
        }),
{
    let s = text::utf8(input);
    let r = Rule::mojom_file;
    let t = peg::empty_trace();
    let list = many(rule(Rule::statement));
    let tail = seq2(list, rule(Rule::EOI));
    let p = layout::behind(s, 0);
    ranks::rule_is_its_body(r, s, 0, t, false);
    peg::lemma_blanks_fit(s, 0);
    reveal_with_fuel(moved::not_first, 4);
    lemma_any_trace(tail, s, p as nat, t);
    lemma_cat(list, rule(Rule::EOI), s, p);
    lemma_rows(Rule::statement, s, p);
    let first = peg::run(Expr::Start, s, 0, t, false, TOP_RANK as nat);
    assert(first == peg::plain(t, Some(0)));
    assert(rule_body(r) == seq2(Expr::Start, tail));
    assert(syntax::is_mojom(input) <==> ends(tail, s, p) is Some);
    let end = rows_end(Rule::statement, s, p)->0;
    let q = layout::behind(s, end);
    lemma_rule(Rule::EOI, s, q);
    assert(ends(Expr::End, s, q) is Some <==> q >= s.len());
}

} // verus!
