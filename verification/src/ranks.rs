//! The ranks of the rules never keep a rule from being tried: a rule matches exactly what its
//! body matches.
use vstd::prelude::*;

use crate::grammar::{is_atomic, rank, rule, rule_body, Expr, Rule, TOP_RANK};
use crate::peg;
use crate::peg::{Hit, Node, Outcome, Trace};
use crate::text;

verus! {

/// Whether `r` can match without consuming anything.
pub open spec fn rule_can_be_empty(r: Rule) -> bool {
    r == Rule::EOI || r == Rule::mojom_file
}

/// Whether `e` can match without consuming anything.
pub open spec fn can_be_empty(e: Expr) -> bool
    decreases e,
{
    match e {
        Expr::Start => true,
        Expr::End => true,
        Expr::Word(w) => w@.len() == 0,
        Expr::Keyword(w) => w@.len() == 0,
        Expr::Char(_) => false,
        Expr::Rule(r) => rule_can_be_empty(r),
        Expr::Cat(a, b) => can_be_empty(*a) && can_be_empty(*b),
        Expr::Or(a, b) => can_be_empty(*a) || can_be_empty(*b),
        Expr::Opt(_) => true,
        Expr::Many(_) => true,
    }
}

/// Whether every rule that `e` tries before it has consumed anything has a rank below `bound`.
pub open spec fn starts_below(e: Expr, bound: nat) -> bool
    decreases e,
{
    match e {
        Expr::Start => true,
        Expr::End => true,
        Expr::Word(_) => true,
        Expr::Keyword(_) => true,
        Expr::Char(_) => true,
        Expr::Rule(r) => (rank(r) as nat) < bound,
        Expr::Cat(a, b) => starts_below(*a, bound) && (can_be_empty(*a) ==> starts_below(
            *b,
            bound,
        )),
        Expr::Or(a, b) => starts_below(*a, bound) && starts_below(*b, bound),
        Expr::Opt(a) => starts_below(*a, bound),
        Expr::Many(a) => starts_below(*a, bound),
    }
}

/// What holds of the body of a rule.
spec fn body_is_ranked(r: Rule) -> bool {
    &&& starts_below(rule_body(r), rank(r) as nat)
    &&& can_be_empty(rule_body(r)) ==> rule_can_be_empty(r)
}

/// Whether `r` is a single word or sign.
pub open spec fn is_token(r: Rule) -> bool {
    match r {
        Rule::t_array | Rule::t_associated | Rule::t_const | Rule::t_handle | Rule::t_import
        | Rule::t_interface | Rule::t_map | Rule::t_module | Rule::t_struct | Rule::t_union
        | Rule::t_amp | Rule::t_arrow | Rule::t_comma | Rule::t_equal | Rule::t_langlebracket
        | Rule::t_lbrace | Rule::t_lbracket | Rule::t_lparen | Rule::t_nullable
        | Rule::t_ranglebracket | Rule::t_rbrace | Rule::t_rbracket | Rule::t_rparen
        | Rule::t_semicolon => true,
        _ => false,
    }
}

/// Whether strings stand in the body of `r`, which is no token.
pub open spec fn is_lexeme(r: Rule) -> bool {
    match r {
        Rule::enum_stmt | Rule::literal | Rule::float | Rule::integer | Rule::string_literal
        | Rule::specific_handle_type | Rule::pending_type | Rule::numeric_type
        | Rule::ordinal_value | Rule::identifier => true,
        _ => false,
    }
}

/// The bodies of tokens.
#[verifier::spinoff_prover]
proof fn lemma_token(r: Rule)
    ensures
        is_token(r) ==> body_is_ranked(r),
{
    reveal_with_fuel(can_be_empty, 13);
    reveal_with_fuel(starts_below, 13);
    match r {
        Rule::t_array => {
            reveal_strlit("array");
        },
        Rule::t_associated => {
            reveal_strlit("associated");
        },
        Rule::t_const => {
            reveal_strlit("const");
        },
        Rule::t_handle => {
            reveal_strlit("handle");
        },
        Rule::t_import => {
            reveal_strlit("import");
        },
        Rule::t_interface => {
            reveal_strlit("interface");
        },
        Rule::t_map => {
            reveal_strlit("map");
        },
        Rule::t_module => {
            reveal_strlit("module");
        },
        Rule::t_struct => {
            reveal_strlit("struct");
        },
        Rule::t_union => {
            reveal_strlit("union");
        },
        Rule::t_amp => {
            reveal_strlit("&");
        },
        Rule::t_arrow => {
            reveal_strlit("=>");
        },
        Rule::t_comma => {
            reveal_strlit(",");
        },
        Rule::t_equal => {
            reveal_strlit("=");
        },
        Rule::t_langlebracket => {
            reveal_strlit("<");
        },
        Rule::t_lbrace => {
            reveal_strlit("{");
        },
        Rule::t_lbracket => {
            reveal_strlit("[");
        },
        Rule::t_lparen => {
            reveal_strlit("(");
        },
        Rule::t_nullable => {
            reveal_strlit("?");
        },
        Rule::t_ranglebracket => {
            reveal_strlit(">");
        },
        Rule::t_rbrace => {
            reveal_strlit("}");
        },
        Rule::t_rbracket => {
            reveal_strlit("]");
        },
        Rule::t_rparen => {
            reveal_strlit(")");
        },
        Rule::t_semicolon => {
            reveal_strlit(";");
        },
        _ => {},
    }
}

/// The bodies of other rules with strings in them.
#[verifier::spinoff_prover]
proof fn lemma_lexeme(r: Rule)
    ensures
        is_lexeme(r) ==> body_is_ranked(r),
{
    reveal_with_fuel(can_be_empty, 13);
    reveal_with_fuel(starts_below, 13);
    match r {
        Rule::enum_stmt => {
            reveal_strlit("enum");
        },
        Rule::literal => {
            reveal_strlit("default");
            reveal_strlit("false");
            reveal_strlit("true");
        },
        Rule::float => {
            reveal_strlit("+");
            reveal_strlit("-");
            reveal_strlit(".");
            reveal_strlit("E");
            reveal_strlit("e");
        },
        Rule::integer => {
            reveal_strlit("+");
            reveal_strlit("-");
            reveal_strlit("0X");
            reveal_strlit("0x");
        },
        Rule::string_literal => {
            reveal_strlit("\"");
            reveal_strlit("\\");
        },
        Rule::specific_handle_type => {
            reveal_strlit("data_pipe_consumer");
            reveal_strlit("data_pipe_producer");
            reveal_strlit("message_pipe");
            reveal_strlit("platform");
            reveal_strlit("shared_buffer");
        },
        Rule::pending_type => {
            reveal_strlit("pending_associated_receiver");
            reveal_strlit("pending_associated_remote");
            reveal_strlit("pending_receiver");
            reveal_strlit("pending_remote");
        },
        Rule::numeric_type => {
            reveal_strlit("bool");
            reveal_strlit("double");
            reveal_strlit("float");
            reveal_strlit("int16");
            reveal_strlit("int32");
            reveal_strlit("int64");
            reveal_strlit("int8");
            reveal_strlit("uint16");
            reveal_strlit("uint32");
            reveal_strlit("uint64");
            reveal_strlit("uint8");
        },
        Rule::ordinal_value => {
            reveal_strlit("@");
        },
        Rule::identifier => {
            reveal_strlit(".");
        },
        _ => {},
    }
}

/// The bodies of rules that are made of other rules.
#[verifier::spinoff_prover]
proof fn lemma_made_of_rules(r: Rule)
    ensures
        !is_token(r) && !is_lexeme(r) ==> body_is_ranked(r),
{
    reveal_with_fuel(can_be_empty, 13);
    reveal_with_fuel(starts_below, 13);
}

/// The body of every rule starts with rules of lower rank only, and matches nothing empty but
/// for the end of the input and an empty file.
proof fn lemma_body_is_ranked(r: Rule)
    ensures
        body_is_ranked(r),
{
    lemma_token(r);
    lemma_lexeme(r);
    lemma_made_of_rules(r);
}

/// A match does not reach beyond the end of the text.
#[verifier::spinoff_prover]
pub(crate) proof fn lemma_run_fits(
    e: Expr,
    s: Seq<u8>,
    pos: nat,
    trace: Trace,
    atomic: bool,
    bound: nat,
)
    requires
        pos <= s.len(),
    ensures
        peg::run(e, s, pos, trace, atomic, bound).hit matches Some(h) ==> pos + h.len <= s.len(),
    decreases peg::left(s, pos), bound, e, 1nat,
{
    match e {
        Expr::Char(_) => {
            if pos < s.len() {
                peg::lemma_scans_fit(s, pos as int + 1);
            }
        },
        Expr::Rule(r) => {
            if (rank(r) as nat) < bound {
                lemma_run_fits(rule_body(r), s, pos, trace, atomic || is_atomic(r), rank(r) as nat);
            }
        },
        Expr::Cat(a, b) => lemma_cat_fits(*a, *b, s, pos, trace, atomic, bound),
        Expr::Or(a, b) => {
            lemma_run_fits(*a, s, pos, trace, atomic, bound);
            let o1 = peg::run(*a, s, pos, trace, atomic, bound);
            lemma_run_fits(*b, s, pos, o1.trace, atomic, bound);
        },
        Expr::Opt(a) => lemma_run_fits(*a, s, pos, trace, atomic, bound),
        Expr::Many(a) => {
            lemma_run_fits(*a, s, pos, trace, atomic, bound);
            let o1 = peg::run(*a, s, pos, trace, atomic, bound);
            if let Some(h1) = o1.hit {
                if h1.len > 0 && pos < s.len() {
                    lemma_more_fits(*a, s, pos + h1.len, o1.trace, atomic, TOP_RANK as nat);
                }
            }
        },
        _ => {},
    }
}

proof fn lemma_cat_fits(
    a: Expr,
    b: Expr,
    s: Seq<u8>,
    pos: nat,
    trace: Trace,
    atomic: bool,
    bound: nat,
)
    requires
        pos <= s.len(),
    ensures
        peg::run(Expr::Cat(Box::new(a), Box::new(b)), s, pos, trace, atomic, bound).hit matches Some(
            h,
        ) ==> pos + h.len <= s.len(),
    decreases peg::left(s, pos), bound, Expr::Cat(Box::new(a), Box::new(b)), 0nat,
{
    lemma_run_fits(a, s, pos, trace, atomic, bound);
    let o1 = peg::run(a, s, pos, trace, atomic, bound);
    if let Some(h1) = o1.hit {
        peg::lemma_blanks_fit(s, (pos + h1.len) as int);
        let n = h1.len + peg::gap(s, pos + h1.len, atomic);
        let bound2 = peg::bound_after(s, pos, n, bound);
        lemma_run_fits(b, s, pos + n, o1.trace, atomic, bound2);
    }
}

proof fn lemma_more_fits(
    e: Expr,
    s: Seq<u8>,
    pos: nat,
    trace: Trace,
    atomic: bool,
    bound: nat,
)
    requires
        pos <= s.len(),
    ensures
        peg::more(e, s, pos, trace, atomic, bound).hit matches Some(h) && pos + h.len <= s.len(),
    decreases peg::left(s, pos), bound, e, 2nat,
{
    peg::lemma_blanks_fit(s, pos as int);
    let g = peg::gap(s, pos, atomic);
    let bound2 = peg::bound_after(s, pos, g, bound);
    lemma_run_fits(e, s, pos + g, trace, atomic, bound2);
    let o1 = peg::run(e, s, pos + g, trace, atomic, bound2);
    if let Some(h1) = o1.hit {
        if g + h1.len > 0 && pos < s.len() {
            lemma_more_fits(e, s, pos + g + h1.len, o1.trace, atomic, TOP_RANK as nat);
        }
    }
}

/// A match of something that cannot be empty consumes something.
pub(crate) proof fn lemma_consumes(
    e: Expr,
    s: Seq<u8>,
    pos: nat,
    trace: Trace,
    atomic: bool,
    bound: nat,
)
    requires
        pos <= s.len(),
        !can_be_empty(e),
    ensures
        peg::run(e, s, pos, trace, atomic, bound).hit matches Some(h) ==> h.len > 0,
    decreases peg::left(s, pos), bound, e,
{
    match e {
        Expr::Word(w) => text::lemma_utf8_len(w@),
        Expr::Keyword(w) => text::lemma_utf8_len(w@),
        Expr::Rule(r) => {
            lemma_body_is_ranked(r);
            if (rank(r) as nat) < bound {
                lemma_consumes(rule_body(r), s, pos, trace, atomic || is_atomic(r), rank(r) as nat);
            }
        },
        Expr::Cat(a, b) => {
            let o1 = peg::run(*a, s, pos, trace, atomic, bound);
            if !can_be_empty(*a) {
                lemma_consumes(*a, s, pos, trace, atomic, bound);
            } else if let Some(h1) = o1.hit {
                lemma_run_fits(*a, s, pos, trace, atomic, bound);
                peg::lemma_blanks_fit(s, (pos + h1.len) as int);
                let n = h1.len + peg::gap(s, pos + h1.len, atomic);
                let bound2 = peg::bound_after(s, pos, n, bound);
                lemma_consumes(*b, s, pos + n, o1.trace, atomic, bound2);
            }
        },
        Expr::Or(a, b) => {
            lemma_consumes(*a, s, pos, trace, atomic, bound);
            let o1 = peg::run(*a, s, pos, trace, atomic, bound);
            lemma_consumes(*b, s, pos, o1.trace, atomic, bound);
        },
        _ => {},
    }
}

/// Where all rules at the start are below two bounds, both bounds give the same.
proof fn lemma_same_below(
    e: Expr,
    s: Seq<u8>,
    pos: nat,
    trace: Trace,
    atomic: bool,
    bound: nat,
    other: nat,
)
    requires
        pos <= s.len(),
        starts_below(e, bound),
        starts_below(e, other),
    ensures
        peg::run(e, s, pos, trace, atomic, bound) == peg::run(e, s, pos, trace, atomic, other),
    decreases e,
{
    match e {
        Expr::Cat(a, b) => {
            lemma_same_below(*a, s, pos, trace, atomic, bound, other);
            let o1 = peg::run(*a, s, pos, trace, atomic, bound);
            if let Some(h1) = o1.hit {
                lemma_run_fits(*a, s, pos, trace, atomic, bound);
                peg::lemma_blanks_fit(s, (pos + h1.len) as int);
                let n = h1.len + peg::gap(s, pos + h1.len, atomic);
                if n == 0 {
                    if !can_be_empty(*a) {
                        lemma_consumes(*a, s, pos, trace, atomic, bound);
                    }
                    lemma_same_below(*b, s, pos, o1.trace, atomic, bound, other);
                }
            }
        },
        Expr::Or(a, b) => {
            lemma_same_below(*a, s, pos, trace, atomic, bound, other);
            let o1 = peg::run(*a, s, pos, trace, atomic, bound);
            lemma_same_below(*b, s, pos, o1.trace, atomic, bound, other);
        },
        Expr::Opt(a) => lemma_same_below(*a, s, pos, trace, atomic, bound, other),
        Expr::Many(a) => lemma_same_below(*a, s, pos, trace, atomic, bound, other),
        _ => {},
    }
}

/// Every rule has a rank below the top.
proof fn lemma_below_top(e: Expr)
    ensures
        starts_below(e, TOP_RANK as nat),
    decreases e,
{
    match e {
        Expr::Cat(a, b) => {
            lemma_below_top(*a);
            lemma_below_top(*b);
        },
        Expr::Or(a, b) => {
            lemma_below_top(*a);
            lemma_below_top(*b);
        },
        Expr::Opt(a) => lemma_below_top(*a),
        Expr::Many(a) => lemma_below_top(*a),
        _ => {},
    }
}

/// What the rule `r` makes of the outcome `o` of its body.
pub open spec fn as_rule(r: Rule, pos: nat, trace: Trace, atomic: bool, o: Outcome) -> Outcome {
    match o.hit {
        Some(h) => Outcome {
            trace: o.trace,
            hit: Some(
                Hit {
                    len: h.len,
                    nodes: if atomic {
                        Seq::empty()
                    } else {
                        seq![Node { rule: r, start: pos, end: pos + h.len, inner: h.nodes }]
                    },
                },
            ),
        },
        None => Outcome {
            trace: if atomic {
                o.trace
            } else {
                peg::track(peg::attempts_at(trace, pos), o.trace, pos, r)
            },
            hit: None,
        },
    }
}

/// A rule matches what its body matches, at every place of every text: that only rules of
/// lower rank are tried until something is consumed makes no difference.
pub proof fn rule_is_its_body(r: Rule, s: Seq<u8>, pos: nat, trace: Trace, atomic: bool)
    requires
        pos <= s.len(),
    ensures
        peg::run(rule(r), s, pos, trace, atomic, TOP_RANK as nat) == as_rule(
            r,
            pos,
            trace,
            atomic,
            peg::run(rule_body(r), s, pos, trace, atomic || is_atomic(r), TOP_RANK as nat),
        ),
{
    let atomic2 = atomic || is_atomic(r);
    lemma_body_is_ranked(r);
    lemma_below_top(rule_body(r));
    lemma_same_below(
        rule_body(r),
        s,
        pos,
        trace,
        atomic2,
        rank(r) as nat,
        TOP_RANK as nat,
    );
}

} // verus!
