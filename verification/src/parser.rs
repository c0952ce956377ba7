//! The parser: it finds the matches that `peg` defines.
use vstd::prelude::*;

use crate::grammar::{is_atomic, rank, rule_body, rule_index, CharSet, Expr, Rule, TOP_RANK};
use crate::peg;
use crate::peg::{byte_in_set, count_blanks, count_continuations, word_stands_at, Node, Trace};
use crate::text;
use crate::tree;

verus! {

/// A part of a text that a rule matches, with what the rules inside it match.
#[derive(Debug)]
pub struct Pair {
    pub rule: Rule,
    pub start: usize,
    pub end: usize,
    pub inner: Vec<Pair>,
}

/// The node that `pair` stands for.
pub open spec fn node(pair: Pair) -> Node
    decreases pair,
{
    Node {
        rule: pair.rule,
        start: pair.start as nat,
        end: pair.end as nat,
        inner: Seq::new(
            pair.inner@.len(),
            |i: int|
                if 0 <= i < pair.inner@.len() {
                    node(pair.inner@[i])
                } else {
                    arbitrary()
                },
        ),
    }
}

impl View for Pair {
    type V = Node;

    open spec fn view(&self) -> Node {
        node(*self)
    }
}

/// The nodes that `pairs` stand for.
pub open spec fn nodes(pairs: Seq<Pair>) -> Seq<Node> {
    Seq::new(pairs.len(), |i: int| node(pairs[i]))
}

/// The nodes inside the node of a pair are those of the pairs inside it.
pub proof fn lemma_inner(pair: Pair)
    ensures
        pair@.inner == nodes(pair.inner@),
{
    assert(pair@.inner =~= nodes(pair.inner@));
}

/// The farthest place at which rules failed, and those rules.
pub struct Attempts {
    pub at: usize,
    pub rules: Vec<Rule>,
}

impl View for Attempts {
    type V = Trace;

    open spec fn view(&self) -> Trace {
        Trace { at: self.at as nat, rules: self.rules@ }
    }
}

impl Attempts {
    /// The number of rules for the place `pos`.
    fn count_at(&self, pos: usize) -> (n: usize)
        ensures
            n == peg::attempts_at(self@, pos as nat),
    {
        if self.at == pos {
            self.rules.len()
        } else {
            0
        }
    }

    /// Notes that `r` failed at `pos`, where `prev` rules stood for `pos` before `r` was
    /// tried.
    fn track(&mut self, prev: usize, pos: usize, r: Rule)
        ensures
            final(self)@ == peg::track(prev as nat, old(self)@, pos as nat, r),
    {
        let now: usize = self.count_at(pos);
        if now > prev && now - prev == 1 {
            return ;
        }
        if self.at == pos {
            self.rules.truncate(prev);
            self.rules.push(r);
        } else if self.at < pos {
            self.rules.clear();
            self.rules.push(r);
            self.at = pos;
        }
    }
}

/// What the parser found is what [`peg::run`] defines.
pub open spec fn found(
    o: peg::Outcome,
    s: Seq<u8>,
    pos: usize,
    before: Seq<Pair>,
    after: Seq<Pair>,
    trace: Trace,
    hit: Option<usize>,
) -> bool {
    &&& trace == o.trace
    &&& match hit {
        Some(n) => {
            &&& o.hit matches Some(h)
            &&& h.len == n
            &&& pos + n <= s.len()
            &&& nodes(after) =~= nodes(before) + h.nodes
        },
        None => o.hit is None && nodes(after) =~= nodes(before),
    }
}

/// Dropping the pairs of a match leaves the nodes from before it.
proof fn lemma_drop_match(before: Seq<Pair>, after: Seq<Pair>, matched: Seq<Node>)
    requires
        nodes(after) =~= nodes(before) + matched,
    ensures
        before.len() <= after.len(),
        nodes(after.take(before.len() as int)) =~= nodes(before),
{
    assert(nodes(after).len() == after.len());
    assert forall|i: int| 0 <= i < before.len() implies nodes(
        after.take(before.len() as int),
    )[i] == nodes(before)[i] by {
        assert(nodes(after)[i] == nodes(before)[i]);
    }
}

/// The node of a rule around the nodes of its body.
proof fn lemma_push_pair(before: Seq<Pair>, pair: Pair, matched: Seq<Node>)
    requires
        nodes(pair.inner@) =~= nodes(Seq::<Pair>::empty()) + matched,
    ensures
        nodes(before.push(pair)) =~= nodes(before) + seq![
            Node {
                rule: pair.rule,
                start: pair.start as nat,
                end: pair.end as nat,
                inner: matched,
            },
        ],
{
    assert(pair@.inner =~= nodes(pair.inner@));
    assert(pair@.inner =~= matched);
}

/// Matches `e` at `pos`. The pairs of the match are put at the end of `out`.
fn run(
    e: &Expr,
    s: &[u8],
    pos: usize,
    trace: &mut Attempts,
    atomic: bool,
    bound: usize,
    out: &mut Vec<Pair>,
) -> (hit: Option<usize>)
    requires
        pos <= s@.len(),
    ensures
        found(
            peg::run(*e, s@, pos as nat, old(trace)@, atomic, bound as nat),
            s@,
            pos,
            old(out)@,
            final(out)@,
            final(trace)@,
            hit,
        ),
    decreases s@.len() - pos, bound, *e, 1nat,
{
    let len: usize = s.len();
    match e {
        Expr::Rule(r) => run_rule(*r, s, pos, trace, atomic, bound, out),
        Expr::Cat(a, b) => run_cat(a, b, s, pos, trace, atomic, bound, out),
        Expr::Or(a, b) => match run(a, s, pos, trace, atomic, bound, out) {
            Some(n) => Some(n),
            None => run(b, s, pos, trace, atomic, bound, out),
        },
        Expr::Opt(a) => match run(a, s, pos, trace, atomic, bound, out) {
            Some(n) => Some(n),
            None => Some(0),
        },
        Expr::Many(a) => match run(a, s, pos, trace, atomic, bound, out) {
            Some(n) => if n > 0 {
                Some(n + run_more(a, s, pos + n, trace, atomic, out))
            } else {
                Some(0)
            },
            None => Some(0),
        },
        _ => {
            proof {
                assert(nodes(out@) + Seq::<Node>::empty() =~= nodes(out@));
            }
            run_plain(e, s, pos)
        },
    }
}

/// Whether `e` is an expression without an expression inside it.
pub open spec fn is_plain(e: Expr) -> bool {
    e is Start || e is End || e is Word || e is Keyword || e is Char
}

/// Matches an expression that stands for characters or for a place.
fn run_plain(e: &Expr, s: &[u8], pos: usize) -> (hit: Option<usize>)
    requires
        pos <= s@.len(),
        is_plain(*e),
    ensures
        forall|trace: Trace, atomic: bool, bound: nat| #[trigger]
            peg::run(*e, s@, pos as nat, trace, atomic, bound) == peg::plain(
                trace,
                match hit {
                    Some(n) => Some(n as nat),
                    None => None,
                },
            ),
        hit matches Some(n) ==> pos + n <= s@.len(),
{
    let len: usize = s.len();
    match e {
        Expr::Start => if pos == 0 {
            Some(0)
        } else {
            None
        },
        Expr::End => if pos == len {
            Some(0)
        } else {
            None
        },
        Expr::Word(w) => {
            let w = w.as_bytes();
            if word_stands_at(w, s, pos) {
                Some(w.len())
            } else {
                None
            }
        },
        Expr::Keyword(w) => {
            let w = w.as_bytes();
            if word_stands_at(w, s, pos) && !(pos + w.len() < len && byte_in_set(
                CharSet::NamePart,
                s[pos + w.len()],
            )) {
                Some(w.len())
            } else {
                None
            }
        },
        Expr::Char(set) => if pos < len && byte_in_set(*set, s[pos]) {
            Some(1 + count_continuations(s, pos + 1))
        } else {
            None
        },
        _ => None,
    }
}

/// Matches the rule `r` at `pos`.
fn run_rule(
    r: Rule,
    s: &[u8],
    pos: usize,
    trace: &mut Attempts,
    atomic: bool,
    bound: usize,
    out: &mut Vec<Pair>,
) -> (hit: Option<usize>)
    requires
        pos <= s@.len(),
    ensures
        found(
            peg::run(Expr::Rule(r), s@, pos as nat, old(trace)@, atomic, bound as nat),
            s@,
            pos,
            old(out)@,
            final(out)@,
            final(trace)@,
            hit,
        ),
    decreases s@.len() - pos, bound, Expr::Rule(r), 0nat,
{
    let len: usize = s.len();
    if rank(r) >= bound {
        return None;
    }
    let prev: usize = trace.count_at(pos);
    let mut inner: Vec<Pair> = Vec::new();
    let body = rule_body(r);
    let hit = run(&body, s, pos, trace, atomic || is_atomic(r), rank(r), &mut inner);
    match hit {
        Some(n) => {
            if !atomic {
                let pair = Pair { rule: r, start: pos, end: pos + n, inner };
                proof {
                    let o = peg::run(
                        rule_body(r),
                        s@,
                        pos as nat,
                        old(trace)@,
                        is_atomic(r),
                        rank(r) as nat,
                    );
                    lemma_push_pair(out@, pair, o.hit->0.nodes);
                }
                out.push(pair);
            }
            Some(n)
        },
        None => {
            if !atomic {
                trace.track(prev, pos, r);
            }
            None
        },
    }
}

/// A match of `a` and then one of `b` is a match of both.
proof fn lemma_cat_found(
    a: Expr,
    b: Expr,
    s: Seq<u8>,
    pos: usize,
    atomic: bool,
    bound: nat,
    trace: (Trace, Trace, Trace),
    out: (Seq<Pair>, Seq<Pair>, Seq<Pair>),
    n1: usize,
    n: usize,
    hit: Option<usize>,
)
    requires
        s.len() <= usize::MAX,
        found(
            peg::run(a, s, pos as nat, trace.0, atomic, bound),
            s,
            pos,
            out.0,
            out.1,
            trace.1,
            Some(n1),
        ),
        n == n1 + peg::gap(s, (pos + n1) as nat, atomic),
        pos + n <= s.len(),
        found(
            peg::run(
                b,
                s,
                (pos + n) as nat,
                trace.1,
                atomic,
                peg::bound_after(s, pos as nat, n as nat, bound),
            ),
            s,
            (pos + n) as usize,
            out.1,
            out.2,
            trace.2,
            hit,
        ),
    ensures
        ({
            let o = peg::run(
                Expr::Cat(Box::new(a), Box::new(b)),
                s,
                pos as nat,
                trace.0,
                atomic,
                bound,
            );
            match hit {
                Some(n2) => found(o, s, pos, out.0, out.2, trace.2, Some((n + n2) as usize)),
                None => found(
                    o,
                    s,
                    pos,
                    out.0,
                    out.2.take(out.0.len() as int),
                    trace.2,
                    None,
                ),
            }
        }),
        out.0.len() <= out.2.len(),
{
    let o1 = peg::run(a, s, pos as nat, trace.0, atomic, bound);
    let h1 = o1.hit->0;
    let bound2 = peg::bound_after(s, pos as nat, n as nat, bound);
    let o2 = peg::run(b, s, (pos + n) as nat, trace.1, atomic, bound2);
    match hit {
        Some(n2) => {
            let h2 = o2.hit->0;
            assert(nodes(out.2) =~= nodes(out.0) + (h1.nodes + h2.nodes));
            assert(nodes(out.2).len() == out.2.len());
        },
        None => {
            lemma_drop_match(out.0, out.2, h1.nodes);
        },
    }
}

/// Matches `a` and then `b`.
fn run_cat(
    a: &Expr,
    b: &Expr,
    s: &[u8],
    pos: usize,
    trace: &mut Attempts,
    atomic: bool,
    bound: usize,
    out: &mut Vec<Pair>,
) -> (hit: Option<usize>)
    requires
        pos <= s@.len(),
    ensures
        found(
            peg::run(
                Expr::Cat(Box::new(*a), Box::new(*b)),
                s@,
                pos as nat,
                old(trace)@,
                atomic,
                bound as nat,
            ),
            s@,
            pos,
            old(out)@,
            final(out)@,
            final(trace)@,
            hit,
        ),
    decreases s@.len() - pos, bound, Expr::Cat(Box::new(*a), Box::new(*b)), 0nat,
{
    let len: usize = s.len();
    let mark: usize = out.len();
    let n1: usize = match run(a, s, pos, trace, atomic, bound, out) {
        Some(n1) => n1,
        None => {
            return None;
        },
    };
    let ghost trace1 = trace@;
    let ghost out1 = out@;
    let g: usize = if atomic {
        0
    } else {
        count_blanks(s, pos + n1)
    };
    let n: usize = n1 + g;
    let bound2: usize = if n > 0 {
        TOP_RANK
    } else {
        bound
    };
    let hit = run(b, s, pos + n, trace, atomic, bound2, out);
    proof {
        lemma_cat_found(
            *a,
            *b,
            s@,
            pos,
            atomic,
            bound as nat,
            (old(trace)@, trace1, trace@),
            (old(out)@, out1, out@),
            n1,
            n,
            hit,
        );
    }
    match hit {
        Some(n2) => Some(n + n2),
        None => {
            out.truncate(mark);
            None
        },
    }
}

/// Matches `e` as often as possible from `pos` on.
fn run_more(
    e: &Expr,
    s: &[u8],
    pos: usize,
    trace: &mut Attempts,
    atomic: bool,
    out: &mut Vec<Pair>,
) -> (n: usize)
    requires
        pos <= s@.len(),
    ensures
        found(
            peg::more(*e, s@, pos as nat, old(trace)@, atomic, TOP_RANK as nat),
            s@,
            pos,
            old(out)@,
            final(out)@,
            final(trace)@,
            Some(n),
        ),
    decreases s@.len() - pos, TOP_RANK, *e, 2nat,
{
    let len: usize = s.len();
    let mut n: usize = 0;
    let ghost first = out@;
    let ghost all = peg::more(*e, s@, pos as nat, trace@, atomic, TOP_RANK as nat);
    loop
        invariant
            len == s@.len(),
            pos + n <= len,
            first == old(out)@,
            all == peg::more(*e, s@, pos as nat, old(trace)@, atomic, TOP_RANK as nat),
            left_over(all, first, n as nat, out@, peg::more(
                *e,
                s@,
                (pos + n) as nat,
                trace@,
                atomic,
                TOP_RANK as nat,
            )),
        decreases len - pos - n,
    {
        let mark: usize = out.len();
        let ghost before = out@;
        let g: usize = if atomic {
            0
        } else {
            count_blanks(s, pos + n)
        };
        let ghost o1 = peg::run(
            *e,
            s@,
            (pos + n + g) as nat,
            trace@,
            atomic,
            TOP_RANK as nat,
        );
        match run(e, s, pos + n + g, trace, atomic, TOP_RANK, out) {
            Some(n1) => {
                if g + n1 == 0 {
                    proof {
                        lemma_drop_match(before, out@, o1.hit->0.nodes);
                    }
                    out.truncate(mark);
                    return n;
                }
                n = n + g + n1;
            },
            None => {
                return n;
            },
        }
    }
}

/// Whether a repetition that comes to `all` from `first` on has taken `n` bytes when it has
/// come to `now` and goes on with `rest`.
spec fn left_over(
    all: peg::Outcome,
    first: Seq<Pair>,
    n: nat,
    now: Seq<Pair>,
    rest: peg::Outcome,
) -> bool {
    &&& all.trace == rest.trace
    &&& all.hit matches Some(h)
    &&& rest.hit matches Some(r)
    &&& h.len == n + r.len
    &&& nodes(first) + h.nodes =~= nodes(now) + r.nodes
}

/// Pairs to be taken one after the other.
#[derive(Debug)]
pub struct Pairs {
    /// What is left, the next one last.
    items: Vec<Pair>,
}

impl View for Pairs {
    type V = Seq<Node>;

    closed spec fn view(&self) -> Seq<Node> {
        nodes(self.items@.reverse())
    }
}

impl Pairs {
    /// All of `pairs`, in their order.
    fn new(pairs: Vec<Pair>) -> (r: Pairs)
        ensures
            r@ == nodes(pairs@),
    {
        let mut pairs = pairs;
        let mut items: Vec<Pair> = Vec::new();
        let ghost all = pairs@;
        while pairs.len() > 0
            invariant
                pairs@ + items@.reverse() =~= all,
            decreases pairs@.len(),
        {
            let ghost before = pairs@;
            let ghost taken = items@;
            if let Some(pair) = pairs.pop() {
                items.push(pair);
                proof {
                    assert(items@.reverse() =~= seq![pair] + taken.reverse());
                    assert(before =~= pairs@ + seq![pair]);
                }
            }
        }
        proof {
            assert(items@.reverse() =~= all);
        }
        Pairs { items }
    }

    /// Takes the next pair.
    pub fn next(&mut self) -> (r: Option<Pair>)
        ensures
            match r {
                Some(pair) => {
                    &&& old(self)@.len() > 0
                    &&& pair@ == old(self)@[0]
                    &&& final(self)@ == old(self)@.skip(1)
                },
                None => old(self)@.len() == 0 && final(self)@ == old(self)@,
            },
    {
        let r = self.items.pop();
        proof {
            if r is Some {
                assert(self@ =~= old(self)@.skip(1));
            }
        }
        r
    }

    /// The next pair, which stays.
    pub fn peek(&self) -> (r: Option<&Pair>)
        ensures
            match r {
                Some(pair) => self@.len() > 0 && pair@ == self@[0],
                None => self@.len() == 0,
            },
    {
        if self.items.len() == 0 {
            None
        } else {
            Some(&self.items[self.items.len() - 1])
        }
    }

    /// The part of `input` from the start of the next pair to the end of the last one.
    pub fn as_str<'i>(&self, input: &'i str) -> (r: &'i str)
        requires
            tree::all_placed(text::utf8(input@), self@, 0, text::utf8(input@).len()),
        ensures
            self@.len() == 0 ==> r@ == Seq::<char>::empty(),
            self@.len() > 0 ==> r@ == text::part(
                input@,
                self@[0].start as int,
                self@.last().end as int,
            ),
    {
        if self.items.len() == 0 {
            proof {
                reveal_strlit("");
                assert(""@ =~= Seq::<char>::empty());
            }
            return "";
        }
        let first = &self.items[self.items.len() - 1];
        let last = &self.items[0];
        proof {
            assert(self@[0] == first@);
            assert(self@.last() == last@);
        }
        text::slice(input, first.start, last.end)
    }
}

/// A part of a text, from the byte `start` up to the byte `end`.
pub struct Span {
    pub start: usize,
    pub end: usize,
}

impl Pair {
    /// The part of the text that the rule matches.
    pub fn as_span(&self) -> (r: Span)
        ensures
            r.start == self@.start,
            r.end == self@.end,
    {
        Span { start: self.start, end: self.end }
    }

    /// The rule that matches.
    pub fn as_rule(&self) -> (r: Rule)
        ensures
            r == self@.rule,
    {
        self.rule
    }

    /// The pairs inside this one.
    pub fn into_inner(self) -> (r: Pairs)
        ensures
            r@ == self@.inner,
    {
        proof {
            lemma_inner(self);
        }
        Pairs::new(self.inner)
    }
}

/// Takes the next pair, which is one of `rule`.
pub fn consume_token(rule: Rule, pairs: &mut Pairs)
    requires
        old(pairs)@.len() > 0,
        old(pairs)@[0].rule == rule,
    ensures
        final(pairs)@ == old(pairs)@.skip(1),
{
    pairs.next();
}

/// Why a text does not match a rule: the farthest place at which rules failed, and
/// those rules in the order of [`Rule`].
#[derive(Debug)]
pub struct ParseError {
    pub at: usize,
    pub expected: Vec<Rule>,
}

/// Whether `rules` holds exactly the rules of `all`, each once, in the order of [`Rule`].
pub open spec fn is_listing(rules: Seq<Rule>, all: Seq<Rule>) -> bool {
    &&& forall|r: Rule| rules.contains(r) <==> all.contains(r)
    &&& forall|i: int, j: int|
        0 <= i < j < rules.len() ==> rule_index(#[trigger] rules[i]) < rule_index(
            #[trigger] rules[j],
        )
}

/// Two rules at the same place in the order are the same.
proof fn lemma_rule_index(a: Rule, b: Rule)
    ensures
        rule_index(a) == rule_index(b) ==> a == b,
{
}

/// Lists `rules`, each once, in the order of [`Rule`].
fn list_rules(rules: &Vec<Rule>) -> (r: Vec<Rule>)
    ensures
        is_listing(r@, rules@),
{
    let mut out: Vec<Rule> = Vec::new();
    let mut n: usize = 0;
    while n < rules.len()
        invariant
            n <= rules@.len(),
            is_listing(out@, rules@.take(n as int)),
        decreases rules@.len() - n,
    {
        let x = rules[n];
        proof {
            assert(rules@.take(n + 1) =~= rules@.take(n as int).push(x));
        }
        insert_rule(&mut out, x, Ghost(rules@.take(n as int)));
        n = n + 1;
    }
    proof {
        assert(rules@.take(n as int) =~= rules@);
    }
    out
}

/// Puts `x` into a listing.
fn insert_rule(out: &mut Vec<Rule>, x: Rule, all: Ghost<Seq<Rule>>)
    requires
        is_listing(old(out)@, all@),
    ensures
        is_listing(final(out)@, all@.push(x)),
{
    let mut i: usize = 0;
    while i < out.len() && rule_index(out[i]) < rule_index(x)
        invariant
            i <= out@.len(),
            out@ == old(out)@,
            forall|j: int| 0 <= j < i ==> rule_index(#[trigger] out@[j]) < rule_index(x),
        decreases out@.len() - i,
    {
        i = i + 1;
    }
    proof {
        assert forall|r: Rule| #[trigger]
            all@.push(x).contains(r) <==> (all@.contains(r) || r == x) by {
            if all@.contains(r) {
                let k = choose|k: int| 0 <= k < all@.len() && all@[k] == r;
                assert(all@.push(x)[k] == r);
            }
            assert(all@.push(x)[all@.len() as int] == x);
        }
    }
    if i < out.len() && out[i] == x {
        proof {
            assert(out@[i as int] == x);
            assert(out@.contains(x));
        }
        return ;
    }
    let ghost before = out@;
    proof {
        if i < before.len() {
            lemma_rule_index(before[i as int], x);
        }
    }
    out.insert(i, x);
    proof {
        assert(out@ == before.insert(i as int, x));
        assert forall|r: Rule| #[trigger]
            out@.contains(r) <==> (before.contains(r) || r == x) by {
            if before.contains(r) {
                let k = choose|k: int| 0 <= k < before.len() && before[k] == r;
                if k < i {
                    assert(out@[k] == r);
                } else {
                    assert(out@[k + 1] == r);
                }
            }
            assert(out@[i as int] == x);
            if out@.contains(r) {
                let k = choose|k: int| 0 <= k < out@.len() && out@[k] == r;
                if k < i {
                    assert(before[k] == r);
                } else if k > i {
                    assert(before[k - 1] == r);
                }
            }
        }
        assert forall|a: int, b: int| 0 <= a < b < out@.len() implies rule_index(#[trigger] out@[a])
            < rule_index(#[trigger] out@[b]) by {
            let a0 = if a < i { a } else { a - 1 };
            let b0 = if b < i { b } else { b - 1 };
            if a != i {
                assert(out@[a] == before[a0]);
            }
            if b != i {
                assert(out@[b] == before[b0]);
            }
            if i < before.len() && a == i {
                assert(rule_index(before[i as int]) <= rule_index(before[b0]));
            }
        }
    }
}

/// What the rule `r` matches at the start of `input`.
pub open spec fn parsed(r: Rule, input: Seq<char>) -> peg::Outcome {
    peg::run(Expr::Rule(r), text::utf8(input), 0, peg::empty_trace(), false, TOP_RANK as nat)
}

/// What every parse gives: on success one pair for the rule, well-formed and placed in
/// the text, on failure a place between two characters.
pub proof fn lemma_parsed(r: Rule, input: Seq<char>)
    ensures
        text::boundary(text::utf8(input), parsed(r, input).trace.at as int),
        parsed(r, input).hit matches Some(h) ==> {
            &&& h.nodes.len() == 1
            &&& h.nodes[0].rule == r
            &&& tree::well_formed(h.nodes[0])
            &&& tree::all_placed(text::utf8(input), h.nodes, 0, text::utf8(input).len())
        },
{
    let s = text::utf8(input);
    vstd::utf8::encode_utf8_valid_utf8(input);
    vstd::utf8::is_char_boundary_start_end_of_seq(s);
    text::lemma_boundary(s, 0);
    tree::lemma_run_placed(Expr::Rule(r), s, 0, peg::empty_trace(), false, TOP_RANK as nat);
    tree::lemma_run_formed(Expr::Rule(r), s, 0, peg::empty_trace(), false, TOP_RANK as nat);
}

/// The parser of the grammar.
pub struct MojomParser;

impl MojomParser {
    /// Matches the rule `r` at the start of `input`.
    pub fn parse(r: Rule, input: &str) -> (result: Result<Pairs, ParseError>)
        ensures
            match result {
                Ok(pairs) => {
                    &&& parsed(r, input@).hit matches Some(h)
                    &&& pairs@ == h.nodes
                    &&& pairs@.len() == 1
                    &&& pairs@[0].rule == r
                    &&& tree::well_formed(pairs@[0])
                    &&& tree::all_placed(text::utf8(input@), pairs@, 0, text::utf8(input@).len())
                },
                Err(err) => {
                    &&& parsed(r, input@).hit is None
                    &&& err.at == parsed(r, input@).trace.at
                    &&& is_listing(err.expected@, parsed(r, input@).trace.rules)
                },
            },
    {
        let s = input.as_bytes();
        let mut trace = Attempts { at: 0, rules: Vec::new() };
        let mut out: Vec<Pair> = Vec::new();
        proof {
            assert(trace@ =~= peg::empty_trace());
            lemma_parsed(r, input@);
        }
        let hit = run(&Expr::Rule(r), s, 0, &mut trace, false, TOP_RANK, &mut out);
        match hit {
            Some(_) => {
                proof {
                    assert(nodes(out@) =~= parsed(r, input@).hit->0.nodes);
                }
                Ok(Pairs::new(out))
            },
            None => Err(ParseError { at: trace.at, expected: list_rules(&trace.rules) }),
        }
    }
}

} // verus!
