//! Where the parts of a match stand in the text: each behind the one before it, with nothing
//! but white space and comments in between.
use vstd::prelude::*;

use crate::grammar::{
    is_atomic, many, opt, rank, rule, rule_body, seq2, Expr, Rule, TOP_RANK,
};
use crate::joined;
use crate::parser;
use crate::peg;
use crate::peg::{Node, Trace};
use crate::ranks;
use crate::text;
use crate::tree;

verus! {

/// The place behind the white space and the comments at `pos`.
pub open spec fn behind(s: Seq<u8>, pos: int) -> int {
    pos + peg::blanks(s, pos)
}

/// A choice of how many nodes, and which bytes, belong to the first of two parts.
pub open spec fn cut(k: int, mid: int) -> bool {
    true
}

/// Whether a match of `e` reaches from `pos` up to `end` and leaves the nodes `ns`.
pub open spec fn laid(e: Expr, s: Seq<u8>, pos: int, end: int, ns: Seq<Node>) -> bool
    decreases e, 0nat,
{
    &&& 0 <= pos <= end <= s.len()
    &&& match e {
        Expr::Start => ns.len() == 0 && end == pos && pos == 0,
        Expr::End => ns.len() == 0 && end == pos && pos == s.len(),
        Expr::Word(w) => ns.len() == 0 && peg::stands_at(text::utf8(w@), s, pos) && end == pos
            + text::utf8(w@).len(),
        Expr::Keyword(w) => ns.len() == 0 && peg::stands_at(text::utf8(w@), s, pos) && end == pos
            + text::utf8(w@).len() && !peg::name_goes_on(s, end),
        Expr::Char(_) => ns.len() == 0,
        Expr::Rule(r) => ns.len() == 1 && ns[0].rule == r && ns[0].start == pos && ns[0].end
            == end,
        Expr::Cat(a, b) => exists|k: int, mid: int| #[trigger]
            cut(k, mid) && 0 <= k <= ns.len() && laid(*a, s, pos, mid, ns.take(k)) && laid(
                *b,
                s,
                behind(s, mid),
                end,
                ns.skip(k),
            ),
        Expr::Or(a, b) => laid(*a, s, pos, end, ns) || laid(*b, s, pos, end, ns),
        Expr::Opt(a) => (ns.len() == 0 && end == pos) || laid(*a, s, pos, end, ns),
        Expr::Many(a) => laid_many(*a, s, pos, end, ns),
    }
}

/// Whether any number of matches of `e` reach from `pos` up to `end` and leave the nodes `ns`.
/// Nothing is said of an expression that can match nothing.
pub open spec fn laid_many(e: Expr, s: Seq<u8>, pos: int, end: int, ns: Seq<Node>) -> bool
    decreases e, (if pos < end { end - pos } else { 0 }) + 1,
{
    ||| ranks::can_be_empty(e)
    ||| ns.len() == 0 && end == pos
    ||| exists|k: int, mid: int| #[trigger]
        cut(k, mid) && 0 <= k <= ns.len() && pos < mid <= end && laid(e, s, pos, mid, ns.take(k))
            && (if mid == end {
            k == ns.len()
        } else {
            behind(s, mid) <= end && laid_many(e, s, behind(s, mid), end, ns.skip(k))
        })
}

/// Whether the rule `r`, taken as a whole, matches from `start` up to `end`.
pub open spec fn scanned(r: Rule, s: Seq<u8>, start: int, end: int) -> bool {
    exists|trace: Trace, bound: nat|
        (#[trigger] peg::run(rule_body(r), s, start as nat, trace, true, bound)).hit matches Some(h)
            && start + h.len == end
}

/// Whether `n` and all nodes inside it stand where the rules want them.
pub open spec fn laid_out(s: Seq<u8>, n: Node) -> bool
    decreases n,
{
    &&& n.start <= n.end <= s.len()
    &&& !ranks::rule_can_be_empty(n.rule) ==> n.start < n.end
    &&& if is_atomic(n.rule) {
        scanned(n.rule, s, n.start as int, n.end as int)
    } else {
        laid(rule_body(n.rule), s, n.start as int, n.end as int, n.inner)
    }
    &&& forall|i: int| 0 <= i < n.inner.len() ==> laid_out(s, #[trigger] n.inner[i])
}

/// Whether all of `ns` stand where the rules want them.
pub open spec fn all_laid_out(s: Seq<u8>, ns: Seq<Node>) -> bool {
    forall|i: int| 0 <= i < ns.len() ==> laid_out(s, #[trigger] ns[i])
}

proof fn lemma_all_laid_out(s: Seq<u8>, a: Seq<Node>, b: Seq<Node>)
    requires
        all_laid_out(s, a),
        all_laid_out(s, b),
    ensures
        all_laid_out(s, a + b),
{
    let c = a + b;
    assert forall|i: int| 0 <= i < c.len() implies laid_out(s, #[trigger] c[i]) by {
        if i < a.len() {
            assert(laid_out(s, a[i]));
        } else {
            assert(laid_out(s, b[i - a.len()]));
        }
    }
}

/// What holds of a match of `e` at `pos`.
spec fn outcome_laid(e: Expr, s: Seq<u8>, pos: nat, o: peg::Outcome) -> bool {
    o.hit matches Some(h) ==> pos + h.len <= s.len() && laid(
        e,
        s,
        pos as int,
        (pos + h.len) as int,
        h.nodes,
    ) && all_laid_out(s, h.nodes)
}

proof fn lemma_run_laid(e: Expr, s: Seq<u8>, pos: nat, trace: Trace, bound: nat)
    requires
        pos <= s.len(),
    ensures
        outcome_laid(e, s, pos, peg::run(e, s, pos, trace, false, bound)),
    decreases peg::left(s, pos), bound, e, 1nat,
{
    ranks::lemma_run_fits(e, s, pos, trace, false, bound);
    match e {
        Expr::Rule(r) => lemma_rule_laid(r, s, pos, trace, bound),
        Expr::Cat(a, b) => lemma_cat_laid(*a, *b, s, pos, trace, bound),
        Expr::Or(a, b) => {
            lemma_run_laid(*a, s, pos, trace, bound);
            let o1 = peg::run(*a, s, pos, trace, false, bound);
            lemma_run_laid(*b, s, pos, o1.trace, bound);
        },
        Expr::Opt(a) => lemma_run_laid(*a, s, pos, trace, bound),
        Expr::Many(a) => lemma_many_laid(*a, s, pos, trace, bound),
        _ => {},
    }
}

proof fn lemma_rule_laid(r: Rule, s: Seq<u8>, pos: nat, trace: Trace, bound: nat)
    requires
        pos <= s.len(),
    ensures
        outcome_laid(
            Expr::Rule(r),
            s,
            pos,
            peg::run(Expr::Rule(r), s, pos, trace, false, bound),
        ),
    decreases peg::left(s, pos), bound, Expr::Rule(r), 0nat,
{
    if (rank(r) as nat) < bound {
        let o = peg::run(rule_body(r), s, pos, trace, is_atomic(r), rank(r) as nat);
        ranks::lemma_run_fits(rule_body(r), s, pos, trace, is_atomic(r), rank(r) as nat);
        if !is_atomic(r) {
            lemma_run_laid(rule_body(r), s, pos, trace, rank(r) as nat);
        } else {
            tree::lemma_run_formed(rule_body(r), s, pos, trace, true, rank(r) as nat);
        }
        if !ranks::rule_can_be_empty(r) {
            ranks::lemma_consumes(Expr::Rule(r), s, pos, trace, false, bound);
        }
        if let Some(h) = o.hit {
            let n = Node { rule: r, start: pos, end: pos + h.len, inner: h.nodes };
            assert(laid_out(s, n));
        }
    }
}

proof fn lemma_cat_laid(a: Expr, b: Expr, s: Seq<u8>, pos: nat, trace: Trace, bound: nat)
    requires
        pos <= s.len(),
    ensures
        outcome_laid(
            Expr::Cat(Box::new(a), Box::new(b)),
            s,
            pos,
            peg::run(Expr::Cat(Box::new(a), Box::new(b)), s, pos, trace, false, bound),
        ),
    decreases peg::left(s, pos), bound, Expr::Cat(Box::new(a), Box::new(b)), 0nat,
{
    lemma_run_laid(a, s, pos, trace, bound);
    let o1 = peg::run(a, s, pos, trace, false, bound);
    if let Some(h1) = o1.hit {
        let mid = pos + h1.len;
        peg::lemma_blanks_fit(s, mid as int);
        let n = h1.len + peg::gap(s, mid, false);
        let bound2 = peg::bound_after(s, pos, n, bound);
        lemma_run_laid(b, s, pos + n, o1.trace, bound2);
        let o2 = peg::run(b, s, pos + n, o1.trace, false, bound2);
        if let Some(h2) = o2.hit {
            let ns = h1.nodes + h2.nodes;
            let k = h1.nodes.len() as int;
            assert(ns.take(k) =~= h1.nodes);
            assert(ns.skip(k) =~= h2.nodes);
            assert(cut(k, mid as int));
            assert(behind(s, mid as int) == pos + n);
            lemma_all_laid_out(s, h1.nodes, h2.nodes);
        }
    }
}

proof fn lemma_many_laid(a: Expr, s: Seq<u8>, pos: nat, trace: Trace, bound: nat)
    requires
        pos <= s.len(),
    ensures
        outcome_laid(
            Expr::Many(Box::new(a)),
            s,
            pos,
            peg::run(Expr::Many(Box::new(a)), s, pos, trace, false, bound),
        ),
    decreases peg::left(s, pos), bound, Expr::Many(Box::new(a)), 0nat,
{
    lemma_run_laid(a, s, pos, trace, bound);
    let o1 = peg::run(a, s, pos, trace, false, bound);
    assert(laid_many(a, s, pos as int, pos as int, Seq::empty()));
    if let Some(h1) = o1.hit {
        if h1.len > 0 && pos < s.len() {
            let mid = pos + h1.len;
            lemma_more_laid(a, s, mid, o1.trace);
            let o2 = peg::more(a, s, mid, o1.trace, false, TOP_RANK as nat);
            let h2 = o2.hit->0;
            lemma_again(a, s, pos as int, mid as int, (mid + h2.len) as int, h1.nodes, h2.nodes);
            lemma_all_laid_out(s, h1.nodes, h2.nodes);
        } else {
            if !ranks::can_be_empty(a) {
                ranks::lemma_consumes(a, s, pos, trace, false, bound);
            }
            assert(laid_many(a, s, pos as int, (pos + h1.len) as int, h1.nodes));
        }
    }
}

/// What holds of the matches of `e` that follow a first one, which ends at `mid`.
spec fn goes_on(e: Expr, s: Seq<u8>, mid: int, end: int, ns: Seq<Node>) -> bool {
    if ranks::can_be_empty(e) {
        true
    } else if mid == end {
        ns.len() == 0
    } else {
        mid < end && behind(s, mid) <= end && laid_many(e, s, behind(s, mid), end, ns)
    }
}

proof fn lemma_again(
    e: Expr,
    s: Seq<u8>,
    pos: int,
    mid: int,
    end: int,
    x: Seq<Node>,
    y: Seq<Node>,
)
    requires
        pos < mid <= end,
        laid(e, s, pos, mid, x),
        goes_on(e, s, mid, end, y),
    ensures
        laid_many(e, s, pos, end, x + y),
{
    let ns = x + y;
    let k = x.len() as int;
    assert(ns.take(k) =~= x);
    assert(ns.skip(k) =~= y);
    assert(cut(k, mid));
}

proof fn lemma_more_laid(e: Expr, s: Seq<u8>, pos: nat, trace: Trace)
    requires
        pos <= s.len(),
    ensures
        peg::more(e, s, pos, trace, false, TOP_RANK as nat).hit matches Some(h) && pos + h.len
            <= s.len() && goes_on(e, s, pos as int, (pos + h.len) as int, h.nodes) && all_laid_out(
            s,
            h.nodes,
        ),
    decreases peg::left(s, pos), TOP_RANK as nat, e, 2nat,
{
    let top = TOP_RANK as nat;
    peg::lemma_blanks_fit(s, pos as int);
    let g = peg::gap(s, pos, false);
    let bound2 = peg::bound_after(s, pos, g, top);
    lemma_run_laid(e, s, pos + g, trace, bound2);
    let o1 = peg::run(e, s, pos + g, trace, false, bound2);
    if let Some(h1) = o1.hit {
        if g + h1.len > 0 && pos < s.len() {
            let mid = pos + g + h1.len;
            lemma_more_laid(e, s, mid, o1.trace);
            let o2 = peg::more(e, s, mid, o1.trace, false, top);
            let h2 = o2.hit->0;
            let end = mid + h2.len;
            lemma_all_laid_out(s, h1.nodes, h2.nodes);
            if h1.len > 0 {
                lemma_again(
                    e,
                    s,
                    (pos + g) as int,
                    mid as int,
                    end as int,
                    h1.nodes,
                    h2.nodes,
                );
            } else if !ranks::can_be_empty(e) {
                ranks::lemma_consumes(e, s, pos + g, trace, false, bound2);
            }
        }
    }
}

/// Behind white space and comments there are none.
pub(crate) proof fn lemma_behind(s: Seq<u8>, pos: int)
    requires
        0 <= pos <= s.len(),
    ensures
        pos <= behind(s, pos) <= s.len(),
        peg::blanks(s, behind(s, pos)) == 0,
{
    peg::lemma_blanks_fit(s, pos);
    joined::lemma_no_blanks(s, pos);
}

/// The rule `r` in front of `e` has left the next node, which starts where the match does.
pub(crate) proof fn lemma_at_rule(
    r: Rule,
    e: Expr,
    s: Seq<u8>,
    pos: int,
    end: int,
    ns: Seq<Node>,
    i: int,
)
    requires
        0 <= i <= ns.len(),
        laid(seq2(rule(r), e), s, pos, end, ns.skip(i)),
    ensures
        i < ns.len(),
        ns[i].rule == r,
        ns[i].start == pos,
        ns[i].end <= s.len(),
        laid(e, s, behind(s, ns[i].end as int), end, ns.skip(i + 1)),
        peg::blanks(s, behind(s, ns[i].end as int)) == 0,
{
    reveal_with_fuel(laid, 2);
    let xs = ns.skip(i);
    let (k, mid) = choose|k: int, mid: int| #[trigger]
        cut(k, mid) && 0 <= k <= xs.len() && laid(rule(r), s, pos, mid, xs.take(k)) && laid(
            e,
            s,
            behind(s, mid),
            end,
            xs.skip(k),
        );
    assert(xs.take(k).len() == 1);
    assert(xs.take(k)[0] == ns[i]);
    assert(xs.skip(1) =~= ns.skip(i + 1));
    lemma_behind(s, mid);
}

/// The rule `r` at the end has left the last node.
pub(crate) proof fn lemma_at_last(
    r: Rule,
    s: Seq<u8>,
    pos: int,
    end: int,
    ns: Seq<Node>,
    i: int,
)
    requires
        0 <= i <= ns.len(),
        laid(rule(r), s, pos, end, ns.skip(i)),
    ensures
        ns.len() == i + 1,
        ns[i].rule == r,
        ns[i].start == pos,
        ns[i].end == end,
{
    assert(ns.skip(i)[0] == ns[i]);
}

/// A word in front of `e` stands where the match starts.
pub(crate) proof fn lemma_at_keyword(
    w: &'static str,
    e: Expr,
    s: Seq<u8>,
    pos: int,
    end: int,
    ns: Seq<Node>,
)
    requires
        laid(seq2(Expr::Keyword(w), e), s, pos, end, ns),
    ensures
        peg::stands_at(text::utf8(w@), s, pos),
        !peg::name_goes_on(s, pos + text::utf8(w@).len()),
        laid(e, s, behind(s, pos + text::utf8(w@).len()), end, ns),
        peg::blanks(s, behind(s, pos + text::utf8(w@).len())) == 0,
{
    reveal_with_fuel(laid, 2);
    let (k, mid) = choose|k: int, mid: int| #[trigger]
        cut(k, mid) && 0 <= k <= ns.len() && laid(Expr::Keyword(w), s, pos, mid, ns.take(k))
            && laid(e, s, behind(s, mid), end, ns.skip(k));
    assert(ns.take(k).len() == 0);
    assert(ns.skip(k) =~= ns);
    lemma_behind(s, mid);
}

/// What is optional in front of `e` stands there or does not.
pub(crate) proof fn lemma_at_opt(
    a: Expr,
    e: Expr,
    s: Seq<u8>,
    pos: int,
    end: int,
    ns: Seq<Node>,
)
    requires
        laid(seq2(opt(a), e), s, pos, end, ns),
        peg::blanks(s, pos) == 0,
    ensures
        laid(seq2(a, e), s, pos, end, ns) || laid(e, s, pos, end, ns),
{
    reveal_with_fuel(laid, 3);
    let (k, mid) = choose|k: int, mid: int| #[trigger]
        cut(k, mid) && 0 <= k <= ns.len() && laid(opt(a), s, pos, mid, ns.take(k)) && laid(
            e,
            s,
            behind(s, mid),
            end,
            ns.skip(k),
        );
    assert(cut(k, mid));
    if laid(a, s, pos, mid, ns.take(k)) {
        assert(laid(seq2(a, e), s, pos, end, ns));
    } else {
        assert(ns.take(k).len() == 0);
        assert(ns.skip(k) =~= ns);
    }
}

/// A repetition in front of `e` goes on once more or has ended.
pub(crate) proof fn lemma_at_many(
    a: Expr,
    e: Expr,
    s: Seq<u8>,
    pos: int,
    end: int,
    ns: Seq<Node>,
)
    requires
        laid(seq2(many(a), e), s, pos, end, ns),
        peg::blanks(s, pos) == 0,
        !ranks::can_be_empty(a),
    ensures
        laid(seq2(a, seq2(many(a), e)), s, pos, end, ns) || laid(e, s, pos, end, ns),
{
    let (k, mid) = choose|k: int, mid: int| #[trigger]
        cut(k, mid) && 0 <= k <= ns.len() && laid(many(a), s, pos, mid, ns.take(k)) && laid(
            e,
            s,
            behind(s, mid),
            end,
            ns.skip(k),
        );
    let x = ns.take(k);
    assert(laid_many(a, s, pos, mid, x));
    if x.len() == 0 && mid == pos {
        assert(ns.skip(k) =~= ns);
    } else {
        let (j, m) = choose|j: int, m: int| #[trigger]
            cut(j, m) && 0 <= j <= x.len() && pos < m <= mid && laid(a, s, pos, m, x.take(j)) && (
            if m == mid {
                j == x.len()
            } else {
                behind(s, m) <= mid && laid_many(a, s, behind(s, m), mid, x.skip(j))
            });
        let rest = ns.skip(j);
        lemma_behind(s, m);
        assert(x.take(j) =~= ns.take(j));
        if m == mid {
            let none = Seq::<Node>::empty();
            let q = behind(s, m);
            assert(laid_many(a, s, q, q, none));
            assert(laid(many(a), s, q, q, none));
            assert(rest.take(0) =~= none);
            assert(rest.skip(0) =~= ns.skip(k));
            assert(cut(0, q));
            assert(laid(seq2(many(a), e), s, q, end, rest));
        } else {
            let q = behind(s, m);
            assert(x.skip(j) =~= rest.take(k - j));
            assert(rest.skip(k - j) =~= ns.skip(k));
            assert(laid(many(a), s, q, mid, rest.take(k - j)));
            assert(cut(k - j, mid));
            assert(laid(seq2(many(a), e), s, q, end, rest));
        }
        assert(cut(j, m));
        assert(laid(seq2(a, seq2(many(a), e)), s, pos, end, ns));
    }
}

/// The nodes of a file stand where the rules want them.
pub(crate) proof fn lemma_parsed_laid(r: Rule, input: Seq<char>)
    ensures
        parser::parsed(r, input).hit matches Some(h) ==> all_laid_out(text::utf8(input), h.nodes),
{
    lemma_run_laid(Expr::Rule(r), text::utf8(input), 0, peg::empty_trace(), TOP_RANK as nat);
}

} // verus!
