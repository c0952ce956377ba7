//! What a syntax error says of the text.
use vstd::prelude::*;

use crate::grammar::{
    is_atomic, label, many, rank, rule, rule_body, rule_index, seq2, Expr, Rule, TOP_RANK,
};
use crate::layout;
use crate::lexemes;
use crate::lsp;
use crate::lsp::DiagnosticSeverity;
use crate::moved;
use crate::parser;
use crate::parser::ParseError;
use crate::peg;
use crate::peg::Trace;
use crate::productions;
use crate::ranks;
use crate::syntax;
use crate::text;

verus! {

/// Whether the rules of a trace stand for a place of the text at which none of them matches.
pub open spec fn none_matches(t: Trace, s: Seq<u8>) -> bool {
    &&& t.at <= s.len()
    &&& t.at > 0 ==> t.rules.len() > 0
    &&& forall|i: int|
        0 <= i < t.rules.len() ==> lexemes::end_of(#[trigger] t.rules[i], s, t.at as int) is None
}

/// What a trace says once more was tried: it goes back to no earlier place, and none of its
/// rules matches.
spec fn goes_on(s: Seq<u8>, before: Trace, after: Trace) -> bool {
    &&& none_matches(after, s)
    &&& before.at <= after.at
    &&& before.rules.len() > 0 ==> after.rules.len() > 0
}

/// Whether `e` is a rule that is tried where only rules with a rank below `bound` are.
spec fn is_tried(e: Expr, bound: nat) -> bool {
    e matches Expr::Rule(r) && (rank(r) as nat) < bound
}

proof fn lemma_goes_on(e: Expr, s: Seq<u8>, pos: nat, trace: Trace, atomic: bool, bound: nat)
    requires
        pos <= s.len(),
        moved::not_first(e),
        none_matches(trace, s),
    ensures
        ({
            let o = peg::run(e, s, pos, trace, atomic, bound);
            &&& goes_on(s, trace, o.trace)
            &&& is_tried(e, bound) && !atomic && o.hit is None ==> pos <= o.trace.at
                && o.trace.rules.len() > 0
        }),
    decreases peg::left(s, pos), bound, e, 1nat,
{
    match e {
        Expr::Rule(r) => lemma_rule_goes_on(r, s, pos, trace, atomic, bound),
        Expr::Cat(a, b) => lemma_cat_goes_on(*a, *b, s, pos, trace, atomic, bound),
        Expr::Or(a, b) => {
            lemma_goes_on(*a, s, pos, trace, atomic, bound);
            let o1 = peg::run(*a, s, pos, trace, atomic, bound);
            lemma_goes_on(*b, s, pos, o1.trace, atomic, bound);
        },
        Expr::Opt(a) => lemma_goes_on(*a, s, pos, trace, atomic, bound),
        Expr::Many(a) => {
            lemma_goes_on(*a, s, pos, trace, atomic, bound);
            ranks::lemma_run_fits(*a, s, pos, trace, atomic, bound);
            let o1 = peg::run(*a, s, pos, trace, atomic, bound);
            if let Some(h1) = o1.hit {
                if h1.len > 0 && pos < s.len() {
                    lemma_more_goes_on(*a, s, pos + h1.len, o1.trace, atomic, TOP_RANK as nat);
                }
            }
        },
        _ => {},
    }
}

/// A rule that fails at `pos` is one that does not match there.
proof fn lemma_tracked(r: Rule, s: Seq<u8>, pos: nat, prev: nat, t: Trace)
    requires
        pos <= s.len(),
        none_matches(t, s),
        lexemes::end_of(r, s, pos as int) is None,
    ensures
        ({
            let after = peg::track(prev, t, pos, r);
            goes_on(s, t, after) && pos <= after.at && after.rules.len() > 0
        }),
{
    let after = peg::track(prev, t, pos, r);
    assert forall|i: int| 0 <= i < after.rules.len() implies lexemes::end_of(
        #[trigger] after.rules[i],
        s,
        after.at as int,
    ) is None by {
        if after.at == t.at && i < t.rules.len() && after.rules[i] == t.rules[i] {
            assert(lexemes::end_of(t.rules[i], s, t.at as int) is None);
        }
    }
}

proof fn lemma_rule_goes_on(r: Rule, s: Seq<u8>, pos: nat, trace: Trace, atomic: bool, bound: nat)
    requires
        pos <= s.len(),
        r != Rule::mojom_file,
        none_matches(trace, s),
    ensures
        ({
            let o = peg::run(rule(r), s, pos, trace, atomic, bound);
            &&& goes_on(s, trace, o.trace)
            &&& (rank(r) as nat) < bound && !atomic && o.hit is None ==> pos <= o.trace.at
                && o.trace.rules.len() > 0
        }),
    decreases peg::left(s, pos), bound, rule(r), 0nat,
{
    if (rank(r) as nat) < bound {
        let atomic2 = atomic || is_atomic(r);
        let b = rank(r) as nat;
        moved::lemma_body_not_first(r);
        lemma_goes_on(rule_body(r), s, pos, trace, atomic2, b);
        let o = peg::run(rule_body(r), s, pos, trace, atomic2, b);
        if !atomic && o.hit is None {
            moved::lemma_moved(rule_body(r), s, s, 0, pos, (trace, peg::empty_trace()), atomic2, b);
            assert(lexemes::end_of(r, s, pos as int) is None);
            lemma_tracked(r, s, pos, peg::attempts_at(trace, pos), o.trace);
        }
    }
}

proof fn lemma_cat_goes_on(
    a: Expr,
    b: Expr,
    s: Seq<u8>,
    pos: nat,
    trace: Trace,
    atomic: bool,
    bound: nat,
)
    requires
        pos <= s.len(),
        moved::not_first(a),
        moved::not_first(b),
        none_matches(trace, s),
    ensures
        goes_on(s, trace, peg::run(seq2(a, b), s, pos, trace, atomic, bound).trace),
    decreases peg::left(s, pos), bound, seq2(a, b), 0nat,
{
    lemma_goes_on(a, s, pos, trace, atomic, bound);
    ranks::lemma_run_fits(a, s, pos, trace, atomic, bound);
    let o1 = peg::run(a, s, pos, trace, atomic, bound);
    if let Some(h1) = o1.hit {
        peg::lemma_blanks_fit(s, (pos + h1.len) as int);
        let n = h1.len + peg::gap(s, pos + h1.len, atomic);
        lemma_goes_on(b, s, pos + n, o1.trace, atomic, peg::bound_after(s, pos, n, bound));
    }
}

proof fn lemma_more_goes_on(e: Expr, s: Seq<u8>, pos: nat, trace: Trace, atomic: bool, bound: nat)
    requires
        pos <= s.len(),
        moved::not_first(e),
        none_matches(trace, s),
    ensures
        goes_on(s, trace, peg::more(e, s, pos, trace, atomic, bound).trace),
    decreases peg::left(s, pos), bound, e, 2nat,
{
    peg::lemma_blanks_fit(s, pos as int);
    let g = peg::gap(s, pos, atomic);
    let bound2 = peg::bound_after(s, pos, g, bound);
    lemma_goes_on(e, s, pos + g, trace, atomic, bound2);
    ranks::lemma_run_fits(e, s, pos + g, trace, atomic, bound2);
    let o1 = peg::run(e, s, pos + g, trace, atomic, bound2);
    if let Some(h1) = o1.hit {
        if g + h1.len > 0 && pos < s.len() {
            lemma_more_goes_on(e, s, pos + g + h1.len, o1.trace, atomic, TOP_RANK as nat);
        }
    }
}

/// Where what follows the statements at the start of a text begins.
pub open spec fn behind_statements(s: Seq<u8>) -> int {
    layout::behind(
        s,
        productions::rows_end(Rule::statement, s, layout::behind(s, 0))->0,
    )
}

/// Behind a match of the first of two parts the second one decides.
proof fn lemma_second(a: Expr, b: Expr, s: Seq<u8>, pos: nat, trace: Trace)
    ensures
        ({
            let o1 = peg::run(a, s, pos, trace, false, TOP_RANK as nat);
            let o = peg::run(seq2(a, b), s, pos, trace, false, TOP_RANK as nat);
            o1.hit matches Some(h1) ==> {
                let next = pos + h1.len + peg::blanks(s, (pos + h1.len) as int);
                let o2 = peg::run(b, s, next, o1.trace, false, TOP_RANK as nat);
                o.trace == o2.trace && (o.hit is None <==> o2.hit is None)
            }
        }),
{
}

proof fn lemma_failed_file(input: Seq<char>)
    requires
        !syntax::is_mojom(input),
    ensures
        ({
            let s = text::utf8(input);
            let t = parser::parsed(Rule::mojom_file, input).trace;
            none_matches(t, s) && t.rules.len() > 0 && behind_statements(s) <= t.at
        }),
{
    let s = text::utf8(input);
    let r = Rule::mojom_file;
    let t0 = peg::empty_trace();
    let list = many(rule(Rule::statement));
    let tail = seq2(list, rule(Rule::EOI));
    let p = layout::behind(s, 0);
    ranks::rule_is_its_body(r, s, 0, t0, false);
    peg::lemma_blanks_fit(s, 0);
    reveal_with_fuel(moved::not_first, 4);
    assert(rule_body(r) == seq2(Expr::Start, tail));
    assert(peg::run(Expr::Start, s, 0, t0, false, TOP_RANK as nat) == peg::plain(t0, Some(0)));
    let o = peg::run(list, s, p as nat, t0, false, TOP_RANK as nat);
    productions::lemma_rows(Rule::statement, s, p);
    productions::lemma_any_trace(list, s, p as nat, t0);
    lemma_goes_on(list, s, p as nat, t0, false, TOP_RANK as nat);
    assert(o.hit is Some);
    let e = p + o.hit->0.len;
    assert(productions::rows_end(Rule::statement, s, p) == Some(e));
    peg::lemma_blanks_fit(s, e);
    let q = layout::behind(s, e);
    lemma_goes_on(rule(Rule::EOI), s, q as nat, o.trace, false, TOP_RANK as nat);
    let last = peg::run(rule(Rule::EOI), s, q as nat, o.trace, false, TOP_RANK as nat);
    let body = peg::run(rule_body(r), s, 0, t0, false, TOP_RANK as nat);
    lemma_second(Expr::Start, tail, s, 0, t0);
    lemma_second(list, rule(Rule::EOI), s, p as nat, t0);
    assert(body.trace == last.trace && body.hit is None);
    assert(lexemes::end_of(r, s, 0) is None);
    lemma_tracked(r, s, 0, 0, body.trace);
}

/// A syntax error stands in the text, behind all whole statements that the text starts with. At
/// least one rule is expected there, and none of those matches there.
pub proof fn error_stands_behind_the_statements(err: ParseError, input: Seq<char>)
    requires
        syntax::is_parse_error(err, input),
    ensures
        ({
            let s = text::utf8(input);
            &&& behind_statements(s) <= err.at <= s.len()
            &&& err.expected@.len() > 0
            &&& forall|i: int|
                0 <= i < err.expected@.len() ==> lexemes::end_of(
                    #[trigger] err.expected@[i],
                    s,
                    err.at as int,
                ) is None
        }),
{
    let s = text::utf8(input);
    let t = parser::parsed(Rule::mojom_file, input).trace;
    lemma_failed_file(input);
    assert(t.rules.contains(t.rules[0]));
    assert(err.expected@.contains(t.rules[0]));
    assert forall|i: int| 0 <= i < err.expected@.len() implies lexemes::end_of(
        #[trigger] err.expected@[i],
        s,
        err.at as int,
    ) is None by {
        assert(err.expected@.contains(err.expected@[i]));
        let j = choose|j: int| 0 <= j < t.rules.len() && t.rules[j] == err.expected@[i];
        assert(lexemes::end_of(t.rules[j], s, t.at as int) is None);
    }
}

/// A syntax error is shown as an error of `source`, from the place where it stands up to the end
/// of the token there.
pub proof fn error_is_shown_where_it_stands(
    d: lsp::DiagnosticView,
    err: ParseError,
    input: Seq<char>,
    source: Seq<char>,
)
    requires
        syntax::is_parse_error(err, input),
        syntax::is_syntax_error(d, input, source),
    ensures
        d.range.start == syntax::lsp_position(input, err.at as int),
        d.range.end == syntax::lsp_position(
            input,
            err.at + syntax::token_len(text::utf8(input), err.at as int),
        ),
        d.severity == Some(DiagnosticSeverity::Error),
        d.code matches Some(code) && code == seq!['m', 'o', 'j', 'o', 'm'],
        d.source == Some(source),
{
    reveal_strlit("mojom");
    assert("mojom"@ =~= seq!['m', 'o', 'j', 'o', 'm']);
}

/// In a message a word is called like it is written, and a sign too, in quotes.
#[verifier::spinoff_prover]
pub proof fn tokens_are_called_as_they_are_written(r: Rule)
    ensures
        rule_body(r) matches Expr::Keyword(w) ==> label(r)@ == w@,
        rule_body(r) matches Expr::Word(w) ==> label(r)@ == seq!['\''] + w@ + seq!['\''],
{
    match r {
        Rule::t_amp => {
            reveal_strlit("&");
            reveal_strlit("'&'");
            assert("'&'"@ =~= seq!['\''] + "&"@ + seq!['\'']);
        },
        Rule::t_arrow => {
            reveal_strlit("=>");
            reveal_strlit("'=>'");
            assert("'=>'"@ =~= seq!['\''] + "=>"@ + seq!['\'']);
        },
        Rule::t_comma => {
            reveal_strlit(",");
            reveal_strlit("','");
            assert("','"@ =~= seq!['\''] + ","@ + seq!['\'']);
        },
        Rule::t_equal => {
            reveal_strlit("=");
            reveal_strlit("'='");
            assert("'='"@ =~= seq!['\''] + "="@ + seq!['\'']);
        },
        Rule::t_langlebracket => {
            reveal_strlit("<");
            reveal_strlit("'<'");
            assert("'<'"@ =~= seq!['\''] + "<"@ + seq!['\'']);
        },
        Rule::t_lbrace => {
            reveal_strlit("{");
            reveal_strlit("'{'");
            assert("'{'"@ =~= seq!['\''] + "{"@ + seq!['\'']);
        },
        Rule::t_lbracket => {
            reveal_strlit("[");
            reveal_strlit("'['");
            assert("'['"@ =~= seq!['\''] + "["@ + seq!['\'']);
        },
        Rule::t_lparen => {
            reveal_strlit("(");
            reveal_strlit("'('");
            assert("'('"@ =~= seq!['\''] + "("@ + seq!['\'']);
        },
        Rule::t_nullable => {
            reveal_strlit("?");
            reveal_strlit("'?'");
            assert("'?'"@ =~= seq!['\''] + "?"@ + seq!['\'']);
        },
        Rule::t_ranglebracket => {
            reveal_strlit(">");
            reveal_strlit("'>'");
            assert("'>'"@ =~= seq!['\''] + ">"@ + seq!['\'']);
        },
        Rule::t_rbrace => {
            reveal_strlit("}");
            reveal_strlit("'}'");
            assert("'}'"@ =~= seq!['\''] + "}"@ + seq!['\'']);
        },
        Rule::t_rbracket => {
            reveal_strlit("]");
            reveal_strlit("']'");
            assert("']'"@ =~= seq!['\''] + "]"@ + seq!['\'']);
        },
        Rule::t_rparen => {
            reveal_strlit(")");
            reveal_strlit("')'");
            assert("')'"@ =~= seq!['\''] + ")"@ + seq!['\'']);
        },
        Rule::t_semicolon => {
            reveal_strlit(";");
            reveal_strlit("';'");
            assert("';'"@ =~= seq!['\''] + ";"@ + seq!['\'']);
        },
        _ => {},
    }
}

/// In a message the other rules are called by their names, but for the file, which is called
/// like the statements that it is made of, and the end of the text.
pub proof fn rules_are_called_by_their_names()
    ensures
        label(Rule::EOI)@ == "'End of File'"@,
        label(Rule::mojom_file)@ == "statement"@,
        label(Rule::statement)@ == "statement"@,
        label(Rule::module_stmt)@ == "module_stmt"@,
        label(Rule::import_stmt)@ == "import_stmt"@,
        label(Rule::interface)@ == "interface"@,
        label(Rule::interface_body)@ == "interface_body"@,
        label(Rule::method_stmt)@ == "method_stmt"@,
        label(Rule::parameter_list)@ == "parameter_list"@,
        label(Rule::parameter)@ == "parameter"@,
        label(Rule::response)@ == "response"@,
        label(Rule::struct_stmt)@ == "struct_stmt"@,
        label(Rule::struct_body)@ == "struct_body"@,
        label(Rule::struct_item)@ == "struct_item"@,
        label(Rule::struct_field)@ == "struct_field"@,
        label(Rule::default)@ == "default"@,
        label(Rule::union_stmt)@ == "union_stmt"@,
        label(Rule::union_field)@ == "union_field"@,
        label(Rule::enum_stmt)@ == "enum_stmt"@,
        label(Rule::enum_block)@ == "enum_block"@,
        label(Rule::enum_value)@ == "enum_value"@,
        label(Rule::const_stmt)@ == "const_stmt"@,
        label(Rule::constant)@ == "constant"@,
        label(Rule::literal)@ == "literal"@,
        label(Rule::number)@ == "number"@,
        label(Rule::float)@ == "float"@,
        label(Rule::integer)@ == "integer"@,
        label(Rule::string_literal)@ == "string_literal"@,
        label(Rule::attribute_section)@ == "attribute_section"@,
        label(Rule::attribute)@ == "attribute"@,
        label(Rule::type_spec)@ == "type_spec"@,
        label(Rule::typename)@ == "typename"@,
        label(Rule::array)@ == "array"@,
        label(Rule::map)@ == "map"@,
        label(Rule::interface_request)@ == "interface_request"@,
        label(Rule::basic_typename)@ == "basic_typename"@,
        label(Rule::handle_type)@ == "handle_type"@,
        label(Rule::specific_handle_type)@ == "specific_handle_type"@,
        label(Rule::pending_type)@ == "pending_type"@,
        label(Rule::associated_type)@ == "associated_type"@,
        label(Rule::numeric_type)@ == "numeric_type"@,
        label(Rule::ordinal_value)@ == "ordinal_value"@,
        label(Rule::identifier)@ == "identifier"@,
        label(Rule::name)@ == "name"@,
{
}

/// The rules that are expected are listed in this order.
pub proof fn rules_have_this_order()
    ensures
        rule_index(Rule::EOI) < rule_index(Rule::mojom_file),
        rule_index(Rule::mojom_file) < rule_index(Rule::statement),
        rule_index(Rule::statement) < rule_index(Rule::module_stmt),
        rule_index(Rule::module_stmt) < rule_index(Rule::import_stmt),
        rule_index(Rule::import_stmt) < rule_index(Rule::interface),
        rule_index(Rule::interface) < rule_index(Rule::interface_body),
        rule_index(Rule::interface_body) < rule_index(Rule::method_stmt),
        rule_index(Rule::method_stmt) < rule_index(Rule::parameter_list),
        rule_index(Rule::parameter_list) < rule_index(Rule::parameter),
        rule_index(Rule::parameter) < rule_index(Rule::response),
        rule_index(Rule::response) < rule_index(Rule::struct_stmt),
        rule_index(Rule::struct_stmt) < rule_index(Rule::struct_body),
        rule_index(Rule::struct_body) < rule_index(Rule::struct_item),
        rule_index(Rule::struct_item) < rule_index(Rule::struct_field),
        rule_index(Rule::struct_field) < rule_index(Rule::default),
        rule_index(Rule::default) < rule_index(Rule::union_stmt),
        rule_index(Rule::union_stmt) < rule_index(Rule::union_field),
        rule_index(Rule::union_field) < rule_index(Rule::enum_stmt),
        rule_index(Rule::enum_stmt) < rule_index(Rule::enum_block),
        rule_index(Rule::enum_block) < rule_index(Rule::enum_value),
        rule_index(Rule::enum_value) < rule_index(Rule::const_stmt),
        rule_index(Rule::const_stmt) < rule_index(Rule::constant),
        rule_index(Rule::constant) < rule_index(Rule::literal),
        rule_index(Rule::literal) < rule_index(Rule::number),
        rule_index(Rule::number) < rule_index(Rule::float),
        rule_index(Rule::float) < rule_index(Rule::integer),
        rule_index(Rule::integer) < rule_index(Rule::string_literal),
        rule_index(Rule::string_literal) < rule_index(Rule::attribute_section),
        rule_index(Rule::attribute_section) < rule_index(Rule::attribute),
        rule_index(Rule::attribute) < rule_index(Rule::type_spec),
        rule_index(Rule::type_spec) < rule_index(Rule::typename),
        rule_index(Rule::typename) < rule_index(Rule::array),
        rule_index(Rule::array) < rule_index(Rule::map),
        rule_index(Rule::map) < rule_index(Rule::interface_request),
        rule_index(Rule::interface_request) < rule_index(Rule::basic_typename),
        rule_index(Rule::basic_typename) < rule_index(Rule::handle_type),
        rule_index(Rule::handle_type) < rule_index(Rule::specific_handle_type),
        rule_index(Rule::specific_handle_type) < rule_index(Rule::pending_type),
        rule_index(Rule::pending_type) < rule_index(Rule::associated_type),
        rule_index(Rule::associated_type) < rule_index(Rule::numeric_type),
        rule_index(Rule::numeric_type) < rule_index(Rule::ordinal_value),
        rule_index(Rule::ordinal_value) < rule_index(Rule::identifier),
        rule_index(Rule::identifier) < rule_index(Rule::name),
        rule_index(Rule::name) < rule_index(Rule::t_array),
        rule_index(Rule::t_array) < rule_index(Rule::t_associated),
        rule_index(Rule::t_associated) < rule_index(Rule::t_const),
        rule_index(Rule::t_const) < rule_index(Rule::t_handle),
        rule_index(Rule::t_handle) < rule_index(Rule::t_import),
        rule_index(Rule::t_import) < rule_index(Rule::t_interface),
        rule_index(Rule::t_interface) < rule_index(Rule::t_map),
        rule_index(Rule::t_map) < rule_index(Rule::t_module),
        rule_index(Rule::t_module) < rule_index(Rule::t_struct),
        rule_index(Rule::t_struct) < rule_index(Rule::t_union),
        rule_index(Rule::t_union) < rule_index(Rule::t_amp),
        rule_index(Rule::t_amp) < rule_index(Rule::t_arrow),
        rule_index(Rule::t_arrow) < rule_index(Rule::t_comma),
        rule_index(Rule::t_comma) < rule_index(Rule::t_equal),
        rule_index(Rule::t_equal) < rule_index(Rule::t_langlebracket),
        rule_index(Rule::t_langlebracket) < rule_index(Rule::t_lbrace),
        rule_index(Rule::t_lbrace) < rule_index(Rule::t_lbracket),
        rule_index(Rule::t_lbracket) < rule_index(Rule::t_lparen),
        rule_index(Rule::t_lparen) < rule_index(Rule::t_nullable),
        rule_index(Rule::t_nullable) < rule_index(Rule::t_ranglebracket),
        rule_index(Rule::t_ranglebracket) < rule_index(Rule::t_rbrace),
        rule_index(Rule::t_rbrace) < rule_index(Rule::t_rbracket),
        rule_index(Rule::t_rbracket) < rule_index(Rule::t_rparen),
        rule_index(Rule::t_rparen) < rule_index(Rule::t_semicolon),
{
}

} // verus!
