//! A text matches the same wherever it stands at the end of another text.
use vstd::prelude::*;

use crate::grammar::{is_atomic, rank, rule_body, Expr, Rule, TOP_RANK};
use crate::peg;
use crate::peg::{Hit, Node, Trace};
use crate::ranks;
use crate::text;

verus! {

/// Whether `b` is `a`, `k` bytes further on.
pub open spec fn node_moved(a: Node, b: Node, k: nat) -> bool
    decreases a,
{
    &&& a.rule == b.rule
    &&& b.start == a.start + k
    &&& b.end == a.end + k
    &&& a.inner.len() == b.inner.len()
    &&& forall|i: int| 0 <= i < a.inner.len() ==> node_moved(#[trigger] a.inner[i], b.inner[i], k)
}

/// Whether `b` are `a`, one by one, `k` bytes further on.
pub open spec fn nodes_moved(a: Seq<Node>, b: Seq<Node>, k: nat) -> bool {
    &&& a.len() == b.len()
    &&& forall|i: int| 0 <= i < a.len() ==> node_moved(#[trigger] a[i], b[i], k)
}

/// Whether the match `b` is the match `a`, `k` bytes further on.
pub open spec fn hit_moved(a: Option<Hit>, b: Option<Hit>, k: nat) -> bool {
    match (a, b) {
        (Some(x), Some(y)) => x.len == y.len && nodes_moved(x.nodes, y.nodes, k),
        (None, None) => true,
        _ => false,
    }
}

/// What is not moved is the same.
pub proof fn lemma_not_moved(a: Node, b: Node)
    ensures
        node_moved(a, b, 0) <==> a == b,
    decreases a,
{
    if node_moved(a, b, 0) {
        assert forall|i: int| 0 <= i < a.inner.len() implies a.inner[i] == b.inner[i] by {
            lemma_not_moved(a.inner[i], b.inner[i]);
        }
        assert(a.inner =~= b.inner);
    }
    if a == b {
        assert forall|i: int| 0 <= i < a.inner.len() implies node_moved(
            #[trigger] a.inner[i],
            b.inner[i],
            0,
        ) by {
            lemma_not_moved(a.inner[i], b.inner[i]);
        }
    }
}

/// Whether `t` is `s` behind `k` other bytes.
pub open spec fn is_behind(s: Seq<u8>, t: Seq<u8>, k: nat) -> bool {
    &&& t.len() == s.len() + k
    &&& forall|i: int| 0 <= i < s.len() ==> #[trigger] s[i] == t[i + k]
}

proof fn lemma_continuations(s: Seq<u8>, t: Seq<u8>, k: nat, pos: int)
    requires
        is_behind(s, t, k),
        0 <= pos,
    ensures
        peg::continuations(t, pos + k) == peg::continuations(s, pos),
    decreases s.len() - pos,
{
    if pos < s.len() {
        assert(s[pos] == t[pos + k]);
        lemma_continuations(s, t, k, pos + 1);
    }
}

pub(crate) proof fn lemma_line(s: Seq<u8>, t: Seq<u8>, k: nat, pos: int)
    requires
        is_behind(s, t, k),
        0 <= pos,
    ensures
        peg::line_rest(t, pos + k) == peg::line_rest(s, pos),
    decreases s.len() - pos,
{
    if pos < s.len() {
        assert(s[pos] == t[pos + k]);
        lemma_line(s, t, k, pos + 1);
    }
}

proof fn lemma_comment(s: Seq<u8>, t: Seq<u8>, k: nat, pos: int)
    requires
        is_behind(s, t, k),
        0 <= pos,
    ensures
        peg::comment_rest(t, pos + k) == peg::comment_rest(s, pos),
    decreases s.len() - pos,
{
    if pos + 2 <= s.len() {
        assert(s[pos] == t[pos + k]);
        assert(s[pos + 1] == t[pos + 1 + k]);
        lemma_comment(s, t, k, pos + 1);
    }
}

proof fn lemma_blank(s: Seq<u8>, t: Seq<u8>, k: nat, pos: int)
    requires
        is_behind(s, t, k),
        0 <= pos,
    ensures
        peg::blank(t, pos + k) == peg::blank(s, pos),
{
    if pos < s.len() {
        assert(s[pos] == t[pos + k]);
        if pos + 1 < s.len() {
            assert(s[pos + 1] == t[pos + 1 + k]);
        }
        lemma_line(s, t, k, pos + 2);
        lemma_comment(s, t, k, pos + 2);
    }
}

/// Blanks are the same.
pub proof fn lemma_blanks(s: Seq<u8>, t: Seq<u8>, k: nat, pos: int)
    requires
        is_behind(s, t, k),
        0 <= pos,
    ensures
        peg::blanks(t, pos + k) == peg::blanks(s, pos),
    decreases (if pos < s.len() { s.len() - pos } else { 0 }),
{
    lemma_blank(s, t, k, pos);
    if pos < s.len() && peg::blank(s, pos) > 0 {
        lemma_blanks(s, t, k, pos + peg::blank(s, pos));
    }
}

proof fn lemma_word(w: Seq<u8>, s: Seq<u8>, t: Seq<u8>, k: nat, pos: int)
    requires
        is_behind(s, t, k),
        0 <= pos,
    ensures
        peg::stands_at(w, t, pos + k) == peg::stands_at(w, s, pos),
        peg::name_goes_on(t, pos + k) == peg::name_goes_on(s, pos),
{
    if pos < s.len() {
        assert(s[pos] == t[pos + k]);
    }
    if pos + w.len() <= s.len() {
        let a = s.subrange(pos, pos + w.len());
        let b = t.subrange(pos + k, pos + k + w.len());
        assert forall|i: int| 0 <= i < w.len() implies a[i] == b[i] by {
            assert(s[pos + i] == t[pos + i + k]);
        }
        assert(a =~= b);
    }
}

/// Whether `e` does not ask for the start of the text.
pub open spec fn not_first(e: Expr) -> bool
    decreases e,
{
    match e {
        Expr::Start => false,
        Expr::Rule(r) => r != Rule::mojom_file,
        Expr::Cat(a, b) => not_first(*a) && not_first(*b),
        Expr::Or(a, b) => not_first(*a) && not_first(*b),
        Expr::Opt(a) => not_first(*a),
        Expr::Many(a) => not_first(*a),
        _ => true,
    }
}

/// Only a file asks for the start of the text.
#[verifier::spinoff_prover]
pub(crate) proof fn lemma_body_not_first(r: Rule)
    ensures
        r != Rule::mojom_file ==> not_first(rule_body(r)),
{
    reveal_with_fuel(not_first, 13);
}

/// What is moved in two parts is moved as a whole.
pub(crate) proof fn lemma_append(
    a1: Seq<Node>,
    a2: Seq<Node>,
    b1: Seq<Node>,
    b2: Seq<Node>,
    k: nat,
)
    requires
        nodes_moved(a1, b1, k),
        nodes_moved(a2, b2, k),
    ensures
        nodes_moved(a1 + a2, b1 + b2, k),
{
    let a = a1 + a2;
    let b = b1 + b2;
    assert forall|i: int| 0 <= i < a.len() implies node_moved(#[trigger] a[i], b[i], k) by {
        if i < a1.len() {
            assert(node_moved(a1[i], b1[i], k));
        } else {
            assert(node_moved(a2[i - a1.len()], b2[i - a1.len()], k));
        }
    }
}

/// What an expression matches is the same wherever the text stands, whatever was tried before.
pub proof fn lemma_moved(
    e: Expr,
    s: Seq<u8>,
    t: Seq<u8>,
    k: nat,
    pos: nat,
    traces: (Trace, Trace),
    atomic: bool,
    bound: nat,
)
    requires
        is_behind(s, t, k),
        pos <= s.len(),
        not_first(e),
    ensures
        hit_moved(
            peg::run(e, s, pos, traces.0, atomic, bound).hit,
            peg::run(e, t, pos + k, traces.1, atomic, bound).hit,
            k,
        ),
    decreases peg::left(s, pos), bound, e, 1nat,
{
    let p = pos as int;
    match e {
        Expr::Word(w) => lemma_word(text::utf8(w@), s, t, k, p),
        Expr::Keyword(w) => {
            lemma_word(text::utf8(w@), s, t, k, p);
            lemma_word(text::utf8(w@), s, t, k, p + text::utf8(w@).len());
        },
        Expr::Char(_) => {
            if p < s.len() {
                assert(s[p] == t[p + k]);
            }
            lemma_continuations(s, t, k, p + 1);
        },
        Expr::Rule(r) => lemma_rule(r, s, t, k, pos, traces, atomic, bound),
        Expr::Cat(a, b) => lemma_cat(*a, *b, s, t, k, pos, traces, atomic, bound),
        Expr::Or(a, b) => {
            lemma_moved(*a, s, t, k, pos, traces, atomic, bound);
            let o1 = peg::run(*a, s, pos, traces.0, atomic, bound);
            let o2 = peg::run(*a, t, pos + k, traces.1, atomic, bound);
            lemma_moved(*b, s, t, k, pos, (o1.trace, o2.trace), atomic, bound);
        },
        Expr::Opt(a) => lemma_moved(*a, s, t, k, pos, traces, atomic, bound),
        Expr::Many(a) => lemma_many(*a, s, t, k, pos, traces, atomic, bound),
        _ => {},
    }
}

proof fn lemma_rule(
    r: Rule,
    s: Seq<u8>,
    t: Seq<u8>,
    k: nat,
    pos: nat,
    traces: (Trace, Trace),
    atomic: bool,
    bound: nat,
)
    requires
        is_behind(s, t, k),
        pos <= s.len(),
        r != Rule::mojom_file,
    ensures
        hit_moved(
            peg::run(Expr::Rule(r), s, pos, traces.0, atomic, bound).hit,
            peg::run(Expr::Rule(r), t, pos + k, traces.1, atomic, bound).hit,
            k,
        ),
    decreases peg::left(s, pos), bound, Expr::Rule(r), 0nat,
{
    if (rank(r) as nat) < bound {
        let atomic2 = atomic || is_atomic(r);
        let b2 = rank(r) as nat;
        lemma_body_not_first(r);
        lemma_moved(rule_body(r), s, t, k, pos, traces, atomic2, b2);
    }
}

#[verifier::spinoff_prover]
proof fn lemma_cat(
    a: Expr,
    b: Expr,
    s: Seq<u8>,
    t: Seq<u8>,
    k: nat,
    pos: nat,
    traces: (Trace, Trace),
    atomic: bool,
    bound: nat,
)
    requires
        is_behind(s, t, k),
        pos <= s.len(),
        not_first(a),
        not_first(b),
    ensures
        hit_moved(
            peg::run(Expr::Cat(Box::new(a), Box::new(b)), s, pos, traces.0, atomic, bound).hit,
            peg::run(Expr::Cat(Box::new(a), Box::new(b)), t, pos + k, traces.1, atomic, bound).hit,
            k,
        ),
    decreases peg::left(s, pos), bound, Expr::Cat(Box::new(a), Box::new(b)), 0nat,
{
    lemma_moved(a, s, t, k, pos, traces, atomic, bound);
    ranks::lemma_run_fits(a, s, pos, traces.0, atomic, bound);
    let o1 = peg::run(a, s, pos, traces.0, atomic, bound);
    let o2 = peg::run(a, t, pos + k, traces.1, atomic, bound);
    if let Some(h1) = o1.hit {
        let next = pos + h1.len;
        lemma_blanks(s, t, k, next as int);
        peg::lemma_blanks_fit(s, next as int);
        let n = h1.len + peg::gap(s, next, atomic);
        assert(n == h1.len + peg::gap(t, next + k, atomic));
        let b2 = peg::bound_after(s, pos, n, bound);
        lemma_moved(b, s, t, k, pos + n, (o1.trace, o2.trace), atomic, b2);
        let p1 = peg::run(b, s, pos + n, o1.trace, atomic, b2);
        let p2 = peg::run(b, t, pos + n + k, o2.trace, atomic, b2);
        assert(pos + k + n == pos + n + k);
        if p1.hit is Some {
            lemma_append(h1.nodes, p1.hit->0.nodes, o2.hit->0.nodes, p2.hit->0.nodes, k);
        }
    }
}

#[verifier::spinoff_prover]
proof fn lemma_many(
    a: Expr,
    s: Seq<u8>,
    t: Seq<u8>,
    k: nat,
    pos: nat,
    traces: (Trace, Trace),
    atomic: bool,
    bound: nat,
)
    requires
        is_behind(s, t, k),
        pos <= s.len(),
        not_first(a),
    ensures
        hit_moved(
            peg::run(Expr::Many(Box::new(a)), s, pos, traces.0, atomic, bound).hit,
            peg::run(Expr::Many(Box::new(a)), t, pos + k, traces.1, atomic, bound).hit,
            k,
        ),
    decreases peg::left(s, pos), bound, Expr::Many(Box::new(a)), 0nat,
{
    lemma_moved(a, s, t, k, pos, traces, atomic, bound);
    ranks::lemma_run_fits(a, s, pos, traces.0, atomic, bound);
    let o1 = peg::run(a, s, pos, traces.0, atomic, bound);
    let o2 = peg::run(a, t, pos + k, traces.1, atomic, bound);
    if let Some(h1) = o1.hit {
        if h1.len > 0 && pos < s.len() {
            let top = TOP_RANK as nat;
            lemma_more(a, s, t, k, pos + h1.len, (o1.trace, o2.trace), atomic, top);
            let p1 = peg::more(a, s, pos + h1.len, o1.trace, atomic, top);
            let p2 = peg::more(a, t, pos + h1.len + k, o2.trace, atomic, top);
            assert(pos + k + h1.len == pos + h1.len + k);
            lemma_append(h1.nodes, p1.hit->0.nodes, o2.hit->0.nodes, p2.hit->0.nodes, k);
        }
    }
}

#[verifier::spinoff_prover]
proof fn lemma_more(
    e: Expr,
    s: Seq<u8>,
    t: Seq<u8>,
    k: nat,
    pos: nat,
    traces: (Trace, Trace),
    atomic: bool,
    bound: nat,
)
    requires
        is_behind(s, t, k),
        pos <= s.len(),
        not_first(e),
    ensures
        hit_moved(
            peg::more(e, s, pos, traces.0, atomic, bound).hit,
            peg::more(e, t, pos + k, traces.1, atomic, bound).hit,
            k,
        ),
        peg::more(e, s, pos, traces.0, atomic, bound).hit is Some,
    decreases peg::left(s, pos), bound, e, 2nat,
{
    lemma_blanks(s, t, k, pos as int);
    peg::lemma_blanks_fit(s, pos as int);
    let g = peg::gap(s, pos, atomic);
    assert(g == peg::gap(t, pos + k, atomic));
    let b2 = peg::bound_after(s, pos, g, bound);
    lemma_moved(e, s, t, k, pos + g, traces, atomic, b2);
    ranks::lemma_run_fits(e, s, pos + g, traces.0, atomic, b2);
    let o1 = peg::run(e, s, pos + g, traces.0, atomic, b2);
    let o2 = peg::run(e, t, pos + g + k, traces.1, atomic, b2);
    assert(pos + k + g == pos + g + k);
    if let Some(h1) = o1.hit {
        if g + h1.len > 0 && pos < s.len() {
            let top = TOP_RANK as nat;
            let next = pos + g + h1.len;
            lemma_more(e, s, t, k, next, (o1.trace, o2.trace), atomic, top);
            let p1 = peg::more(e, s, next, o1.trace, atomic, top);
            let p2 = peg::more(e, t, next + k, o2.trace, atomic, top);
            assert(pos + k + g + h1.len == next + k);
            lemma_append(h1.nodes, p1.hit->0.nodes, o2.hit->0.nodes, p2.hit->0.nodes, k);
        }
    }
}

} // verus!
