//! What holds of every syntax tree that the grammar gives: its nodes lie inside the
//! text, in order and on whole characters, and their children are those that the
//! rules call for.
use vstd::prelude::*;

use crate::grammar::{
    chr, is_atomic, many, opt, or2, rank, rule, rule_body, seq2, seq3, word, CharSet, Expr, Rule,
    TOP_RANK,
};
use crate::peg;
use crate::peg::{Node, Trace};
use crate::ranks;
use crate::text;

verus! {

/// Whether `n` and all nodes inside it lie in `s` on whole characters, each inside the
/// node around it and behind the node before it. A string literal has its quotes, and
/// only the end of the input and a file can be empty.
pub open spec fn placed(s: Seq<u8>, n: Node) -> bool
    decreases n,
{
    &&& n.start <= n.end
    &&& text::boundary(s, n.start as int)
    &&& text::boundary(s, n.end as int)
    &&& n.rule == Rule::string_literal ==> quoted(s, n.start as int, n.end as int)
    &&& !ranks::rule_can_be_empty(n.rule) ==> n.start < n.end
    &&& in_row(n.inner, n.start, n.end)
    &&& forall|i: int| 0 <= i < n.inner.len() ==> placed(s, #[trigger] n.inner[i])
}

/// Whether the part of `s` from `from` up to `to` starts and ends with a double quote.
pub open spec fn quoted(s: Seq<u8>, from: int, to: int) -> bool {
    from + 2 <= to <= s.len() && s[from] == 0x22 && s[to - 1] == 0x22
}

/// Whether `ns` lie between `from` and `to`, one behind the other.
pub open spec fn in_row(ns: Seq<Node>, from: nat, to: nat) -> bool {
    &&& forall|i: int|
        0 <= i < ns.len() ==> from <= (#[trigger] ns[i]).start && ns[i].start <= ns[i].end
            && ns[i].end <= to
    &&& forall|i: int, j: int|
        0 <= i < j < ns.len() ==> (#[trigger] ns[i]).end <= (#[trigger] ns[j]).start
}

/// Whether all of `ns` are placed, between `from` and `to`.
pub open spec fn all_placed(s: Seq<u8>, ns: Seq<Node>, from: nat, to: nat) -> bool {
    &&& in_row(ns, from, to)
    &&& forall|i: int| 0 <= i < ns.len() ==> placed(s, #[trigger] ns[i])
}

/// Nodes up to `mid` and nodes from `mid2` on make a row.
proof fn lemma_rows(s: Seq<u8>, a: Seq<Node>, b: Seq<Node>, from: nat, mid: nat, mid2: nat, to: nat)
    requires
        all_placed(s, a, from, mid),
        all_placed(s, b, mid2, to),
        from <= mid <= mid2 <= to,
    ensures
        all_placed(s, a + b, from, to),
{
    let c = a + b;
    assert forall|i: int| 0 <= i < c.len() implies #[trigger] placed(s, c[i]) && from <= c[i].start
        && c[i].start <= c[i].end && c[i].end <= to by {
        if i < a.len() {
            assert(placed(s, a[i]));
        } else {
            assert(placed(s, b[i - a.len()]));
        }
    }
    assert forall|i: int, j: int| 0 <= i < j < c.len() implies (#[trigger] c[i]).end <= (
    #[trigger] c[j]).start by {
        if i >= a.len() {
            assert(b[i - a.len()].end <= b[j - a.len()].start);
        } else if j < a.len() {
            assert(a[i].end <= a[j].start);
        }
    }
}

/// White space and comments end on a whole character.
proof fn lemma_blank_boundary(s: Seq<u8>, pos: int)
    requires
        vstd::utf8::valid_utf8(s),
        text::boundary(s, pos),
    ensures
        text::boundary(s, pos + peg::blank(s, pos)),
{
    peg::lemma_blank_fits(s, pos);
    if pos < s.len() && peg::blank(s, pos) > 0 {
        if s[pos] == 0x2f {
            if s[pos + 1] == 0x2f {
                lemma_line_boundary(s, pos + 2);
                if peg::line_rest(s, pos + 2) == 0 && pos + 2 < s.len() {
                    text::lemma_ascii_boundary(s, pos + 1);
                }
            } else {
                lemma_comment_boundary(s, pos + 2);
            }
        } else {
            text::lemma_ascii_boundary(s, pos);
        }
    }
}

proof fn lemma_line_boundary(s: Seq<u8>, pos: int)
    requires
        0 <= pos <= s.len(),
    ensures
        text::boundary(s, pos + peg::line_rest(s, pos)),
    decreases s.len() - pos,
{
    if pos < s.len() && s[pos] != 0x0a {
        lemma_line_boundary(s, pos + 1);
    }
}

proof fn lemma_comment_boundary(s: Seq<u8>, pos: int)
    requires
        vstd::utf8::valid_utf8(s),
        0 <= pos <= s.len(),
    ensures
        peg::comment_rest(s, pos) matches Some(n) ==> text::boundary(s, pos + n),
    decreases s.len() - pos,
{
    if pos + 2 <= s.len() {
        if s[pos] == 0x2a && s[pos + 1] == 0x2f {
            text::lemma_ascii_boundary(s, pos + 1);
        } else {
            lemma_comment_boundary(s, pos + 1);
        }
    }
}

proof fn lemma_blanks_boundary(s: Seq<u8>, pos: int)
    requires
        vstd::utf8::valid_utf8(s),
        text::boundary(s, pos),
    ensures
        text::boundary(s, pos + peg::blanks(s, pos)),
    decreases s.len() - pos,
{
    if pos < s.len() && peg::blank(s, pos) > 0 {
        lemma_blank_boundary(s, pos);
        lemma_blanks_boundary(s, pos + peg::blank(s, pos));
    }
}

proof fn lemma_continuations_boundary(s: Seq<u8>, pos: int)
    requires
        0 <= pos <= s.len(),
    ensures
        text::boundary(s, pos + peg::continuations(s, pos)),
    decreases s.len() - pos,
{
    if pos < s.len() && peg::is_continuation(s[pos]) {
        lemma_continuations_boundary(s, pos + 1);
    }
}

/// What holds of the outcome of an expression at `pos`.
pub open spec fn outcome_placed(s: Seq<u8>, pos: nat, o: peg::Outcome) -> bool {
    &&& text::boundary(s, o.trace.at as int)
    &&& o.hit matches Some(h) ==> text::boundary(s, (pos + h.len) as int) && all_placed(
        s,
        h.nodes,
        pos,
        pos + h.len,
    )
}

/// A double quote is one byte.
proof fn lemma_quote()
    ensures
        text::utf8("\""@) == seq![0x22u8],
{
    reveal_strlit("\"");
    vstd::utf8::is_ascii_chars_encode_utf8("\""@);
    assert(text::utf8("\""@) =~= seq![0x22u8]);
}

/// What starts and ends with a double quote stands between double quotes.
proof fn lemma_between_quotes(m: Expr, s: Seq<u8>, pos: nat, trace: Trace, bound: nat)
    requires
        pos <= s.len(),
    ensures
        peg::run(seq3(word("\""), m, word("\"")), s, pos, trace, true, bound).hit matches Some(h)
            ==> quoted(s, pos as int, (pos + h.len) as int),
{
    lemma_quote();
    let q = text::utf8("\""@);
    let w = word("\"");
    let o1 = peg::run(w, s, pos, trace, true, bound);
    if let Some(h1) = o1.hit {
        assert(s.subrange(pos as int, pos as int + q.len())[0] == q[0]);
        let bound2 = peg::bound_after(s, pos, 1, bound);
        let mid = pos + 1;
        let o2 = peg::run(m, s, mid, o1.trace, true, bound2);
        if let Some(h2) = o2.hit {
            let last = mid + h2.len;
            let bound3 = peg::bound_after(s, mid, h2.len, bound2);
            let o3 = peg::run(w, s, last, o2.trace, true, bound3);
            if let Some(h3) = o3.hit {
                assert(s.subrange(last as int, last as int + q.len())[0] == q[0]);
                assert(peg::run(seq2(m, w), s, mid, o1.trace, true, bound2).hit->0.len == h2.len
                    + 1);
            }
            assert(peg::run(seq2(m, w), s, mid, o1.trace, true, bound2).hit is Some ==> o3.hit
                is Some);
        }
    }
}

/// A string literal stands between double quotes.
proof fn lemma_quoted(s: Seq<u8>, pos: nat, trace: Trace, bound: nat)
    requires
        pos <= s.len(),
    ensures
        peg::run(rule_body(Rule::string_literal), s, pos, trace, true, bound).hit matches Some(h)
            ==> quoted(s, pos as int, (pos + h.len) as int),
{
    let m = many(or2(seq2(word("\\"), chr(CharSet::Any)), chr(CharSet::StringChar)));
    lemma_between_quotes(m, s, pos, trace, bound);
}

/// Every match lies in the text on whole characters, with its nodes in a row.
pub proof fn lemma_run_placed(
    e: Expr,
    s: Seq<u8>,
    pos: nat,
    trace: Trace,
    atomic: bool,
    bound: nat,
)
    requires
        vstd::utf8::valid_utf8(s),
        text::boundary(s, pos as int),
        text::boundary(s, trace.at as int),
    ensures
        outcome_placed(s, pos, peg::run(e, s, pos, trace, atomic, bound)),
    decreases peg::left(s, pos), bound, e, 1nat,
{
    match e {
        Expr::Start => {},
        Expr::End => {},
        Expr::Word(w) => {
            vstd::utf8::encode_utf8_valid_utf8(w@);
            if peg::stands_at(text::utf8(w@), s, pos as int) {
                text::lemma_word_boundary(text::utf8(w@), s, pos as int);
            }
        },
        Expr::Keyword(w) => {
            vstd::utf8::encode_utf8_valid_utf8(w@);
            if peg::stands_at(text::utf8(w@), s, pos as int) {
                text::lemma_word_boundary(text::utf8(w@), s, pos as int);
            }
        },
        Expr::Char(set) => {
            if pos < s.len() {
                lemma_continuations_boundary(s, pos as int + 1);
            }
        },
        Expr::Rule(r) => lemma_rule_placed(r, s, pos, trace, atomic, bound),
        Expr::Cat(a, b) => lemma_cat_placed(*a, *b, s, pos, trace, atomic, bound),
        Expr::Or(a, b) => {
            lemma_run_placed(*a, s, pos, trace, atomic, bound);
            let o1 = peg::run(*a, s, pos, trace, atomic, bound);
            lemma_run_placed(*b, s, pos, o1.trace, atomic, bound);
        },
        Expr::Opt(a) => {
            lemma_run_placed(*a, s, pos, trace, atomic, bound);
        },
        Expr::Many(a) => lemma_many_placed(*a, s, pos, trace, atomic, bound),
    }
}

proof fn lemma_rule_placed(
    r: Rule,
    s: Seq<u8>,
    pos: nat,
    trace: Trace,
    atomic: bool,
    bound: nat,
)
    requires
        vstd::utf8::valid_utf8(s),
        text::boundary(s, pos as int),
        text::boundary(s, trace.at as int),
    ensures
        outcome_placed(s, pos, peg::run(Expr::Rule(r), s, pos, trace, atomic, bound)),
    decreases peg::left(s, pos), bound, Expr::Rule(r), 0nat,
{
    if (rank(r) as nat) < bound {
        let atomic2 = atomic || is_atomic(r);
        lemma_run_placed(rule_body(r), s, pos, trace, atomic2, rank(r) as nat);
        lemma_quoted(s, pos, trace, rank(r) as nat);
        if !ranks::rule_can_be_empty(r) {
            ranks::lemma_consumes(Expr::Rule(r), s, pos, trace, atomic, bound);
        }
        let o = peg::run(rule_body(r), s, pos, trace, atomic2, rank(r) as nat);
        if let Some(h) = o.hit {
            let n = Node { rule: r, start: pos, end: pos + h.len, inner: h.nodes };
            assert(placed(s, n));
            assert(all_placed(s, seq![n], pos, pos + h.len));
        }
    }
}

proof fn lemma_cat_placed(
    a: Expr,
    b: Expr,
    s: Seq<u8>,
    pos: nat,
    trace: Trace,
    atomic: bool,
    bound: nat,
)
    requires
        vstd::utf8::valid_utf8(s),
        text::boundary(s, pos as int),
        text::boundary(s, trace.at as int),
    ensures
        outcome_placed(
            s,
            pos,
            peg::run(Expr::Cat(Box::new(a), Box::new(b)), s, pos, trace, atomic, bound),
        ),
    decreases peg::left(s, pos), bound, Expr::Cat(Box::new(a), Box::new(b)), 0nat,
{
    lemma_run_placed(a, s, pos, trace, atomic, bound);
    let o1 = peg::run(a, s, pos, trace, atomic, bound);
    if let Some(h1) = o1.hit {
        lemma_blanks_boundary(s, (pos + h1.len) as int);
        let n = h1.len + peg::gap(s, pos + h1.len, atomic);
        let bound2 = peg::bound_after(s, pos, n, bound);
        lemma_run_placed(b, s, pos + n, o1.trace, atomic, bound2);
        let o2 = peg::run(b, s, pos + n, o1.trace, atomic, bound2);
        if let Some(h2) = o2.hit {
            lemma_rows(s, h1.nodes, h2.nodes, pos, pos + h1.len, pos + n, pos + n + h2.len);
        }
    }
}

proof fn lemma_many_placed(
    a: Expr,
    s: Seq<u8>,
    pos: nat,
    trace: Trace,
    atomic: bool,
    bound: nat,
)
    requires
        vstd::utf8::valid_utf8(s),
        text::boundary(s, pos as int),
        text::boundary(s, trace.at as int),
    ensures
        outcome_placed(s, pos, peg::run(Expr::Many(Box::new(a)), s, pos, trace, atomic, bound)),
    decreases peg::left(s, pos), bound, Expr::Many(Box::new(a)), 0nat,
{
    lemma_run_placed(a, s, pos, trace, atomic, bound);
    let o1 = peg::run(a, s, pos, trace, atomic, bound);
    if let Some(h1) = o1.hit {
        if h1.len > 0 && pos < s.len() {
            let mid = pos + h1.len;
            lemma_more_placed(a, s, mid, o1.trace, atomic, TOP_RANK as nat);
            let o2 = peg::more(a, s, mid, o1.trace, atomic, TOP_RANK as nat);
            let h2 = o2.hit->0;
            lemma_rows(s, h1.nodes, h2.nodes, pos, mid, mid, mid + h2.len);
        }
    }
}

proof fn lemma_more_placed(
    e: Expr,
    s: Seq<u8>,
    pos: nat,
    trace: Trace,
    atomic: bool,
    bound: nat,
)
    requires
        vstd::utf8::valid_utf8(s),
        text::boundary(s, pos as int),
        text::boundary(s, trace.at as int),
    ensures
        outcome_placed(s, pos, peg::more(e, s, pos, trace, atomic, bound)),
        peg::more(e, s, pos, trace, atomic, bound).hit is Some,
    decreases peg::left(s, pos), bound, e, 2nat,
{
    lemma_blanks_boundary(s, pos as int);
    let g = peg::gap(s, pos, atomic);
    let bound2 = peg::bound_after(s, pos, g, bound);
    lemma_run_placed(e, s, pos + g, trace, atomic, bound2);
    let o1 = peg::run(e, s, pos + g, trace, atomic, bound2);
    if let Some(h1) = o1.hit {
        if g + h1.len > 0 && pos < s.len() {
            let top = TOP_RANK as nat;
            lemma_more_placed(e, s, pos + g + h1.len, o1.trace, atomic, top);
            let o2 = peg::more(e, s, pos + g + h1.len, o1.trace, atomic, top);
            lemma_rows(
                s,
                h1.nodes,
                o2.hit->0.nodes,
                pos,
                pos + g + h1.len,
                pos + g + h1.len,
                pos + g + h1.len + o2.hit->0.len,
            );
        }
    }
}

/// Whether `ns` is what the rules in `e` leave in a match of `e`.
pub open spec fn yields(e: Expr, ns: Seq<Node>) -> bool
    decreases e, 0nat,
{
    match e {
        Expr::Start | Expr::End | Expr::Word(_) | Expr::Keyword(_) | Expr::Char(_) => ns.len() == 0,
        Expr::Rule(r) => ns.len() == 1 && ns[0].rule == r,
        Expr::Cat(a, b) => exists|k: int|
            0 <= k <= ns.len() && yields(*a, #[trigger] ns.take(k)) && yields(*b, ns.skip(k)),
        Expr::Or(a, b) => yields(*a, ns) || yields(*b, ns),
        Expr::Opt(a) => ns.len() == 0 || yields(*a, ns),
        Expr::Many(a) => yields_many(*a, ns),
    }
}

/// Whether `ns` is what the rules in `e` leave in any number of matches of `e`.
pub open spec fn yields_many(e: Expr, ns: Seq<Node>) -> bool
    decreases e, ns.len() + 1,
{
    ns.len() == 0 || exists|k: int|
        0 < k <= ns.len() && yields(e, #[trigger] ns.take(k)) && yields_many(e, ns.skip(k))
}

/// Whether the children of `n`, and theirs, are what the rules call for.
pub open spec fn well_formed(n: Node) -> bool
    decreases n,
{
    &&& if is_atomic(n.rule) {
        n.inner.len() == 0
    } else {
        yields(rule_body(n.rule), n.inner)
    }
    &&& forall|i: int| 0 <= i < n.inner.len() ==> well_formed(#[trigger] n.inner[i])
}

/// Whether all of `ns` are well-formed.
pub open spec fn all_well_formed(ns: Seq<Node>) -> bool {
    forall|i: int| 0 <= i < ns.len() ==> well_formed(#[trigger] ns[i])
}

/// What holds of the nodes in the outcome of `e`.
pub open spec fn outcome_formed(e: Expr, atomic: bool, o: peg::Outcome) -> bool {
    o.hit matches Some(h) ==> all_well_formed(h.nodes) && if atomic {
        h.nodes.len() == 0
    } else {
        yields(e, h.nodes)
    }
}

proof fn lemma_yields_cat(a: Expr, b: Expr, x: Seq<Node>, y: Seq<Node>)
    requires
        yields(a, x),
        yields(b, y),
    ensures
        yields(Expr::Cat(Box::new(a), Box::new(b)), x + y),
{
    let ns = x + y;
    assert(ns.take(x.len() as int) =~= x);
    assert(ns.skip(x.len() as int) =~= y);
}

proof fn lemma_yields_again(a: Expr, x: Seq<Node>, y: Seq<Node>)
    requires
        yields(a, x),
        yields_many(a, y),
    ensures
        yields_many(a, x + y),
{
    let ns = x + y;
    assert(ns.take(x.len() as int) =~= x);
    assert(ns.skip(x.len() as int) =~= y);
    if x.len() == 0 {
        assert(ns =~= y);
    }
}

/// The nodes in a match are those that the expression calls for.
pub proof fn lemma_run_formed(
    e: Expr,
    s: Seq<u8>,
    pos: nat,
    trace: Trace,
    atomic: bool,
    bound: nat,
)
    ensures
        outcome_formed(e, atomic, peg::run(e, s, pos, trace, atomic, bound)),
    decreases peg::left(s, pos), bound, e, 1nat,
{
    match e {
        Expr::Rule(r) => lemma_rule_formed(r, s, pos, trace, atomic, bound),
        Expr::Cat(a, b) => lemma_cat_formed(*a, *b, s, pos, trace, atomic, bound),
        Expr::Or(a, b) => {
            lemma_run_formed(*a, s, pos, trace, atomic, bound);
            let o1 = peg::run(*a, s, pos, trace, atomic, bound);
            lemma_run_formed(*b, s, pos, o1.trace, atomic, bound);
        },
        Expr::Opt(a) => lemma_run_formed(*a, s, pos, trace, atomic, bound),
        Expr::Many(a) => lemma_many_formed(*a, s, pos, trace, atomic, bound),
        _ => {},
    }
}

proof fn lemma_rule_formed(
    r: Rule,
    s: Seq<u8>,
    pos: nat,
    trace: Trace,
    atomic: bool,
    bound: nat,
)
    ensures
        outcome_formed(
            Expr::Rule(r),
            atomic,
            peg::run(Expr::Rule(r), s, pos, trace, atomic, bound),
        ),
    decreases peg::left(s, pos), bound, Expr::Rule(r), 0nat,
{
    if (rank(r) as nat) < bound {
        let atomic2 = atomic || is_atomic(r);
        lemma_run_formed(rule_body(r), s, pos, trace, atomic2, rank(r) as nat);
        let o = peg::run(rule_body(r), s, pos, trace, atomic2, rank(r) as nat);
        if let Some(h) = o.hit {
            let n = Node { rule: r, start: pos, end: pos + h.len, inner: h.nodes };
            if !atomic {
                assert(well_formed(n));
            }
        }
    }
}

proof fn lemma_cat_formed(
    a: Expr,
    b: Expr,
    s: Seq<u8>,
    pos: nat,
    trace: Trace,
    atomic: bool,
    bound: nat,
)
    ensures
        outcome_formed(
            Expr::Cat(Box::new(a), Box::new(b)),
            atomic,
            peg::run(Expr::Cat(Box::new(a), Box::new(b)), s, pos, trace, atomic, bound),
        ),
    decreases peg::left(s, pos), bound, Expr::Cat(Box::new(a), Box::new(b)), 0nat,
{
    lemma_run_formed(a, s, pos, trace, atomic, bound);
    let o1 = peg::run(a, s, pos, trace, atomic, bound);
    if let Some(h1) = o1.hit {
        let n = h1.len + peg::gap(s, pos + h1.len, atomic);
        let bound2 = peg::bound_after(s, pos, n, bound);
        lemma_run_formed(b, s, pos + n, o1.trace, atomic, bound2);
        let o2 = peg::run(b, s, pos + n, o1.trace, atomic, bound2);
        if let Some(h2) = o2.hit {
            if !atomic {
                lemma_yields_cat(a, b, h1.nodes, h2.nodes);
            }
        }
    }
}

proof fn lemma_many_formed(
    a: Expr,
    s: Seq<u8>,
    pos: nat,
    trace: Trace,
    atomic: bool,
    bound: nat,
)
    ensures
        outcome_formed(
            Expr::Many(Box::new(a)),
            atomic,
            peg::run(Expr::Many(Box::new(a)), s, pos, trace, atomic, bound),
        ),
    decreases peg::left(s, pos), bound, Expr::Many(Box::new(a)), 0nat,
{
    lemma_run_formed(a, s, pos, trace, atomic, bound);
    assert(yields_many(a, Seq::empty()));
    let o1 = peg::run(a, s, pos, trace, atomic, bound);
    if let Some(h1) = o1.hit {
        if h1.len > 0 && pos < s.len() {
            let mid = pos + h1.len;
            lemma_more_formed(a, s, mid, o1.trace, atomic, TOP_RANK as nat);
            let o2 = peg::more(a, s, mid, o1.trace, atomic, TOP_RANK as nat);
            if !atomic {
                lemma_yields_again(a, h1.nodes, o2.hit->0.nodes);
            }
        } else if !atomic {
            lemma_yields_again(a, h1.nodes, Seq::empty());
            assert(h1.nodes + Seq::<Node>::empty() =~= h1.nodes);
        }
    }
}

proof fn lemma_more_formed(
    e: Expr,
    s: Seq<u8>,
    pos: nat,
    trace: Trace,
    atomic: bool,
    bound: nat,
)
    ensures
        peg::more(e, s, pos, trace, atomic, bound).hit matches Some(h) && all_well_formed(h.nodes)
            && if atomic {
            h.nodes.len() == 0
        } else {
            yields_many(e, h.nodes)
        },
    decreases peg::left(s, pos), bound, e, 2nat,
{
    let g = peg::gap(s, pos, atomic);
    let bound2 = peg::bound_after(s, pos, g, bound);
    lemma_run_formed(e, s, pos + g, trace, atomic, bound2);
    let o1 = peg::run(e, s, pos + g, trace, atomic, bound2);
    if let Some(h1) = o1.hit {
        if g + h1.len > 0 && pos < s.len() {
            let mid = pos + g + h1.len;
            lemma_more_formed(e, s, mid, o1.trace, atomic, TOP_RANK as nat);
            let o2 = peg::more(e, s, mid, o1.trace, atomic, TOP_RANK as nat);
            if !atomic {
                lemma_yields_again(e, h1.nodes, o2.hit->0.nodes);
            }
        }
    }
}

/// A rule at the front has left the first node.
pub proof fn lemma_front_rule(r: Rule, e: Expr, ns: Seq<Node>)
    requires
        yields(seq2(rule(r), e), ns),
    ensures
        ns.len() > 0,
        ns[0].rule == r,
        yields(e, ns.skip(1)),
{
    reveal_with_fuel(yields, 2);
    let k = choose|k: int|
        0 <= k <= ns.len() && yields(rule(r), #[trigger] ns.take(k)) && yields(e, ns.skip(k));
    assert(ns.take(k).len() == 1);
    assert(ns.take(k)[0] == ns[0]);
}

/// An expression without rules at the front has left nothing.
pub proof fn lemma_front_plain(a: Expr, e: Expr, ns: Seq<Node>)
    requires
        yields(seq2(a, e), ns),
        a is Start || a is End || a is Word || a is Keyword || a is Char,
    ensures
        yields(e, ns),
{
    reveal_with_fuel(yields, 2);
    let k = choose|k: int|
        0 <= k <= ns.len() && yields(a, #[trigger] ns.take(k)) && yields(e, ns.skip(k));
    assert(ns.take(k).len() == 0);
    assert(ns.skip(k) =~= ns);
}

/// What is optional at the front stands there or does not.
pub proof fn lemma_front_opt(a: Expr, e: Expr, ns: Seq<Node>)
    requires
        yields(seq2(opt(a), e), ns),
    ensures
        yields(seq2(a, e), ns) || yields(e, ns),
{
    reveal_with_fuel(yields, 3);
    let k = choose|k: int|
        0 <= k <= ns.len() && yields(opt(a), #[trigger] ns.take(k)) && yields(e, ns.skip(k));
    if ns.take(k).len() == 0 {
        assert(ns.skip(k) =~= ns);
    } else {
        assert(yields(a, ns.take(k)));
    }
}

/// A repetition at the front goes on once more or has ended.
pub proof fn lemma_front_many(a: Expr, e: Expr, ns: Seq<Node>)
    requires
        yields(seq2(many(a), e), ns),
    ensures
        yields(seq2(a, seq2(many(a), e)), ns) || yields(e, ns),
{
    reveal_with_fuel(yields, 2);
    let k = choose|k: int|
        0 <= k <= ns.len() && yields(many(a), #[trigger] ns.take(k)) && yields(e, ns.skip(k));
    let x = ns.take(k);
    assert(yields_many(a, x));
    if x.len() == 0 {
        assert(ns.skip(k) =~= ns);
    } else {
        let j = choose|j: int|
            0 < j <= x.len() && yields(a, #[trigger] x.take(j)) && yields_many(a, x.skip(j));
        assert(x.take(j) =~= ns.take(j));
        assert(x.skip(j) =~= ns.skip(j).take(k - j));
        assert(ns.skip(j).skip(k - j) =~= ns.skip(k));
        assert(yields(many(a), ns.skip(j).take(k - j)));
        assert(yields(seq2(many(a), e), ns.skip(j)));
    }
}

/// A rule at the front of what follows the first `i` nodes has left the next one.
pub proof fn lemma_next(r: Rule, e: Expr, ns: Seq<Node>, i: int)
    requires
        0 <= i <= ns.len(),
        yields(seq2(rule(r), e), ns.skip(i)),
    ensures
        i < ns.len(),
        ns[i].rule == r,
        yields(e, ns.skip(i + 1)),
{
    lemma_front_rule(r, e, ns.skip(i));
    assert(ns.skip(i).skip(1) =~= ns.skip(i + 1));
}

/// A rule at the end has left the last node.
pub proof fn lemma_last(r: Rule, ns: Seq<Node>, i: int)
    requires
        0 <= i <= ns.len(),
        yields(rule(r), ns.skip(i)),
    ensures
        ns.len() == i + 1,
        ns[i].rule == r,
{
}

/// The number of attribute lists in front of `ns`, none or one.
pub open spec fn attrs(ns: Seq<Node>) -> int {
    if ns.len() > 0 && ns[0].rule == Rule::attribute_section {
        1
    } else {
        0
    }
}

/// The first rule after an optional attribute list.
pub proof fn lemma_attrs(first: Rule, e: Expr, ns: Seq<Node>)
    requires
        yields(seq2(opt(rule(Rule::attribute_section)), seq2(rule(first), e)), ns),
        first != Rule::attribute_section,
    ensures
        attrs(ns) < ns.len(),
        ns[attrs(ns)].rule == first,
        yields(e, ns.skip(attrs(ns) + 1)),
{
    let rest = seq2(rule(first), e);
    let attr = Rule::attribute_section;
    lemma_front_opt(rule(attr), rest, ns);
    if yields(seq2(rule(attr), rest), ns) {
        lemma_front_rule(attr, rest, ns);
        lemma_next(first, e, ns, 1);
    } else {
        lemma_front_rule(first, e, ns);
    }
}

/// Whether the rule `r` occurs in `e`.
pub open spec fn occurs(e: Expr, r: Rule) -> bool
    decreases e,
{
    match e {
        Expr::Start | Expr::End | Expr::Word(_) | Expr::Keyword(_) | Expr::Char(_) => false,
        Expr::Rule(q) => q == r,
        Expr::Cat(a, b) => occurs(*a, r) || occurs(*b, r),
        Expr::Or(a, b) => occurs(*a, r) || occurs(*b, r),
        Expr::Opt(a) => occurs(*a, r),
        Expr::Many(a) => occurs(*a, r),
    }
}

/// Only rules that occur in an expression leave nodes in a match of it.
pub proof fn lemma_occurs(e: Expr, ns: Seq<Node>, i: int)
    requires
        yields(e, ns),
        0 <= i < ns.len(),
    ensures
        occurs(e, ns[i].rule),
    decreases e, 0nat,
{
    match e {
        Expr::Cat(a, b) => {
            let k = choose|k: int|
                0 <= k <= ns.len() && yields(*a, #[trigger] ns.take(k)) && yields(*b, ns.skip(k));
            if i < k {
                lemma_occurs(*a, ns.take(k), i);
            } else {
                lemma_occurs(*b, ns.skip(k), i - k);
            }
        },
        Expr::Or(a, b) => {
            if yields(*a, ns) {
                lemma_occurs(*a, ns, i);
            } else {
                lemma_occurs(*b, ns, i);
            }
        },
        Expr::Opt(a) => lemma_occurs(*a, ns, i),
        Expr::Many(a) => lemma_occurs_many(*a, ns, i),
        _ => {},
    }
}

proof fn lemma_occurs_many(e: Expr, ns: Seq<Node>, i: int)
    requires
        yields_many(e, ns),
        0 <= i < ns.len(),
    ensures
        occurs(e, ns[i].rule),
    decreases e, ns.len() + 1,
{
    let k = choose|k: int|
        0 < k <= ns.len() && yields(e, #[trigger] ns.take(k)) && yields_many(e, ns.skip(k));
    if i < k {
        lemma_occurs(e, ns.take(k), i);
    } else {
        lemma_occurs_many(e, ns.skip(k), i - k);
    }
}

/// The nodes of something between two rules.
pub proof fn lemma_between(a: Rule, x: Expr, b: Rule, ns: Seq<Node>)
    requires
        yields(seq3(rule(a), x, rule(b)), ns),
    ensures
        ns.len() >= 2,
        ns[0].rule == a,
        ns.last().rule == b,
        forall|i: int| 1 <= i < ns.len() - 1 ==> occurs(x, (#[trigger] ns[i]).rule),
{
    lemma_front_rule(a, seq2(x, rule(b)), ns);
    let rest = ns.skip(1);
    let k = choose|k: int|
        0 <= k <= rest.len() && yields(x, #[trigger] rest.take(k)) && yields(
            rule(b),
            rest.skip(k),
        );
    assert(yields(rule(b), rest.skip(k)));
    assert(rest.skip(k).len() == 1);
    assert(rest.skip(k)[0] == ns.last());
    assert forall|i: int| 1 <= i < ns.len() - 1 implies occurs(x, (#[trigger] ns[i]).rule) by {
        assert(rest.take(k)[i - 1] == ns[i]);
        lemma_occurs(x, rest.take(k), i - 1);
    }
}

/// The place of the rule `b` after a repetition of the rule `x`.
pub proof fn lemma_many_next(x: Rule, b: Rule, e: Expr, ns: Seq<Node>, i: int) -> (j: int)
    requires
        0 <= i <= ns.len(),
        yields(seq2(many(rule(x)), seq2(rule(b), e)), ns.skip(i)),
    ensures
        i <= j < ns.len(),
        forall|q: int| i <= q < j ==> (#[trigger] ns[q]).rule == x,
        ns[j].rule == b,
        yields(e, ns.skip(j + 1)),
    decreases ns.len() - i,
{
    let rest = seq2(rule(b), e);
    lemma_front_many(rule(x), rest, ns.skip(i));
    if yields(rest, ns.skip(i)) {
        lemma_next(b, e, ns, i);
        i
    } else {
        lemma_next(x, seq2(many(rule(x)), rest), ns, i);
        lemma_many_next(x, b, e, ns, i + 1)
    }
}

} // verus!
