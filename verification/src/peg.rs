//! What the parsing expressions of the grammar match, and a parser that finds
//! these matches.
//!
//! [`run`] defines the result of a parsing expression at a place of a text. The
//! text is a sequence of bytes, the UTF-8 form of a string.
use vstd::prelude::*;

use crate::text;
use crate::grammar::{is_atomic, rank, rule_body, CharSet, Expr, Rule, TOP_RANK};

verus! {

/// A part of a text that a rule matches, with what the rules inside it match.
#[verifier::ext_equal]
pub struct Node {
    pub rule: Rule,
    pub start: nat,
    pub end: nat,
    pub inner: Seq<Node>,
}

/// The farthest place at which rules failed, and those rules.
#[verifier::ext_equal]
pub struct Trace {
    pub at: nat,
    pub rules: Seq<Rule>,
}

/// A match: the number of bytes that it takes and the nodes of the rules in it.
#[verifier::ext_equal]
pub struct Hit {
    pub len: nat,
    pub nodes: Seq<Node>,
}

/// What became of a parsing expression.
#[verifier::ext_equal]
pub struct Outcome {
    pub trace: Trace,
    pub hit: Option<Hit>,
}

/// The trace before anything was tried.
pub open spec fn empty_trace() -> Trace {
    Trace { at: 0, rules: Seq::empty() }
}

/// The number of rules that `t` has for the place `pos`.
pub open spec fn attempts_at(t: Trace, pos: nat) -> nat {
    if t.at == pos {
        t.rules.len()
    } else {
        0
    }
}

/// The trace once the rule `r` failed at `pos`, where `prev` rules stood in the trace
/// for `pos` before `r` was tried and `t` is the trace that its body left.
///
/// Where the body added exactly one rule for `pos`, that rule stands for `r`.
/// Otherwise `r` stands for whatever its body added for `pos`.
pub open spec fn track(prev: nat, t: Trace, pos: nat, r: Rule) -> Trace {
    if attempts_at(t, pos) == prev + 1 {
        t
    } else if t.at == pos {
        let kept = if prev <= t.rules.len() {
            prev
        } else {
            t.rules.len()
        };
        Trace { at: pos, rules: t.rules.take(kept as int).push(r) }
    } else if t.at < pos {
        Trace { at: pos, rules: seq![r] }
    } else {
        t
    }
}

/// Whether `b` is a byte of a UTF-8 form, but not the first one.
pub open spec fn is_continuation(b: u8) -> bool {
    0x80 <= b < 0xc0
}

/// Whether `b` is the first byte of a character of `set`.
pub open spec fn in_set(set: CharSet, b: u8) -> bool {
    let digit = 0x30 <= b <= 0x39;
    let letter = 0x41 <= b <= 0x5a || 0x61 <= b <= 0x7a;
    match set {
        CharSet::Digit => digit,
        CharSet::HexDigit => digit || 0x41 <= b <= 0x46 || 0x61 <= b <= 0x66,
        CharSet::NameStart => letter || b == 0x5f,
        CharSet::NamePart => letter || digit || b == 0x5f,
        CharSet::StringChar => b != 0x22 && b != 0x5c && b != 0x0a,
        CharSet::Any => true,
    }
}

/// The number of continuation bytes in a row from `pos` on.
pub open spec fn continuations(s: Seq<u8>, pos: int) -> nat
    decreases s.len() - pos,
{
    if 0 <= pos < s.len() && is_continuation(s[pos]) {
        1 + continuations(s, pos + 1)
    } else {
        0
    }
}

/// Whether the bytes `w` stand at `pos`.
pub open spec fn stands_at(w: Seq<u8>, s: Seq<u8>, pos: int) -> bool {
    pos + w.len() <= s.len() && s.subrange(pos, pos + w.len()) =~= w
}

/// Whether a character that can go on a name stands at `pos`.
pub open spec fn name_goes_on(s: Seq<u8>, pos: int) -> bool {
    0 <= pos < s.len() && in_set(CharSet::NamePart, s[pos])
}

/// The number of bytes from `pos` up to the next line feed or the end.
pub open spec fn line_rest(s: Seq<u8>, pos: int) -> nat
    decreases s.len() - pos,
{
    if 0 <= pos < s.len() && s[pos] != 0x0a {
        1 + line_rest(s, pos + 1)
    } else {
        0
    }
}

/// The number of bytes from `pos` up to and with the next `*/`, or `None` where
/// none follows.
pub open spec fn comment_rest(s: Seq<u8>, pos: int) -> Option<nat>
    decreases s.len() - pos,
{
    if pos < 0 || pos + 2 > s.len() {
        None
    } else if s[pos] == 0x2a && s[pos + 1] == 0x2f {
        Some(2)
    } else {
        match comment_rest(s, pos + 1) {
            Some(n) => Some(1 + n),
            None => None,
        }
    }
}

/// The number of bytes of the white space or of the comment at `pos`, 0 where
/// neither stands there.
pub open spec fn blank(s: Seq<u8>, pos: int) -> nat {
    if !(0 <= pos < s.len()) {
        0
    } else if s[pos] == 0x20 || s[pos] == 0x09 || s[pos] == 0x0d || s[pos] == 0x0a {
        1
    } else if pos + 1 < s.len() && s[pos] == 0x2f && s[pos + 1] == 0x2f {
        2 + line_rest(s, pos + 2)
    } else if pos + 1 < s.len() && s[pos] == 0x2f && s[pos + 1] == 0x2a {
        match comment_rest(s, pos + 2) {
            Some(n) => 2 + n,
            None => 0,
        }
    } else {
        0
    }
}

/// The number of bytes of all white space and comments from `pos` on.
pub open spec fn blanks(s: Seq<u8>, pos: int) -> nat
    decreases (if pos < s.len() { s.len() - pos } else { 0 }),
{
    if 0 <= pos < s.len() && blank(s, pos) > 0 {
        blank(s, pos) + blanks(s, pos + blank(s, pos))
    } else {
        0
    }
}

/// What is skipped at `pos` between two parts of a match.
pub open spec fn gap(s: Seq<u8>, pos: nat, atomic: bool) -> nat {
    if atomic {
        0
    } else {
        blanks(s, pos as int)
    }
}

/// The number of bytes from `pos` to the end.
pub open spec fn left(s: Seq<u8>, pos: nat) -> nat {
    if pos < s.len() {
        (s.len() - pos) as nat
    } else {
        0
    }
}

/// The bound for the rules after `n` bytes from `pos` on were consumed: every rule
/// may be tried again once something was.
pub open spec fn bound_after(s: Seq<u8>, pos: nat, n: nat, bound: nat) -> nat {
    if n > 0 && pos < s.len() {
        TOP_RANK as nat
    } else {
        bound
    }
}

/// A match of `n` bytes without nodes, or none.
pub open spec fn plain(trace: Trace, len: Option<nat>) -> Outcome {
    Outcome {
        trace,
        hit: match len {
            Some(n) => Some(Hit { len: n, nodes: Seq::empty() }),
            None => None,
        },
    }
}

/// The result of the expression `e` at the place `pos` of `s`.
///
/// `trace` is what failed before. In an `atomic` context nothing is skipped between
/// the parts of a match and rules leave neither nodes nor traces. Only rules with a
/// rank below `bound` are tried as long as nothing is consumed.
pub open spec fn run(e: Expr, s: Seq<u8>, pos: nat, trace: Trace, atomic: bool, bound: nat) -> Outcome
    decreases left(s, pos), bound, e, 0nat,
{
    match e {
        Expr::Start => plain(trace, if pos == 0 { Some(0nat) } else { None }),
        Expr::End => plain(trace, if pos >= s.len() { Some(0nat) } else { None }),
        Expr::Word(w) => plain(
            trace,
            if stands_at(text::utf8(w@), s, pos as int) {
                Some(text::utf8(w@).len())
            } else {
                None
            },
        ),
        Expr::Keyword(w) => plain(
            trace,
            if stands_at(text::utf8(w@), s, pos as int) && !name_goes_on(
                s,
                pos as int + text::utf8(w@).len(),
            ) {
                Some(text::utf8(w@).len())
            } else {
                None
            },
        ),
        Expr::Char(set) => plain(
            trace,
            if pos < s.len() && in_set(set, s[pos as int]) {
                Some(1 + continuations(s, pos as int + 1))
            } else {
                None
            },
        ),
        Expr::Rule(r) => if (rank(r) as nat) < bound {
            let o = run(rule_body(r), s, pos, trace, atomic || is_atomic(r), rank(r) as nat);
            if atomic {
                Outcome {
                    trace: o.trace,
                    hit: match o.hit {
                        Some(h) => Some(Hit { len: h.len, nodes: Seq::empty() }),
                        None => None,
                    },
                }
            } else {
                match o.hit {
                    Some(h) => Outcome {
                        trace: o.trace,
                        hit: Some(
                            Hit {
                                len: h.len,
                                nodes: seq![
                                    Node { rule: r, start: pos, end: pos + h.len, inner: h.nodes },
                                ],
                            },
                        ),
                    },
                    None => Outcome { trace: track(attempts_at(trace, pos), o.trace, pos, r), hit: None },
                }
            }
        } else {
            plain(trace, None)
        },
        Expr::Cat(a, b) => {
            let o1 = run(*a, s, pos, trace, atomic, bound);
            match o1.hit {
                Some(h1) => {
                    let n = h1.len + gap(s, pos + h1.len, atomic);
                    let o2 = run(*b, s, pos + n, o1.trace, atomic, bound_after(s, pos, n, bound));
                    match o2.hit {
                        Some(h2) => Outcome {
                            trace: o2.trace,
                            hit: Some(Hit { len: n + h2.len, nodes: h1.nodes + h2.nodes }),
                        },
                        None => o2,
                    }
                },
                None => o1,
            }
        },
        Expr::Or(a, b) => {
            let o1 = run(*a, s, pos, trace, atomic, bound);
            match o1.hit {
                Some(h1) => o1,
                None => run(*b, s, pos, o1.trace, atomic, bound),
            }
        },
        Expr::Opt(a) => {
            let o = run(*a, s, pos, trace, atomic, bound);
            match o.hit {
                Some(h) => o,
                None => plain(o.trace, Some(0nat)),
            }
        },
        Expr::Many(a) => {
            let o1 = run(*a, s, pos, trace, atomic, bound);
            match o1.hit {
                Some(h1) => if h1.len > 0 && pos < s.len() {
                    let o2 = more(*a, s, pos + h1.len, o1.trace, atomic, TOP_RANK as nat);
                    Outcome {
                        trace: o2.trace,
                        hit: Some(
                            Hit {
                                len: h1.len + o2.hit->0.len,
                                nodes: h1.nodes + o2.hit->0.nodes,
                            },
                        ),
                    }
                } else {
                    o1
                },
                None => plain(o1.trace, Some(0nat)),
            }
        },
    }
}

/// The result of a repetition of `e` from `pos` on, after a first match of `e`. It
/// always matches: where `e` does not, it matches nothing.
pub open spec fn more(e: Expr, s: Seq<u8>, pos: nat, trace: Trace, atomic: bool, bound: nat) -> Outcome
    decreases left(s, pos), bound, e, 1nat,
{
    let g = gap(s, pos, atomic);
    let o1 = run(e, s, pos + g, trace, atomic, bound_after(s, pos, g, bound));
    match o1.hit {
        Some(h1) => if g + h1.len > 0 && pos < s.len() {
            let o2 = more(e, s, pos + g + h1.len, o1.trace, atomic, TOP_RANK as nat);
            Outcome {
                trace: o2.trace,
                hit: Some(
                    Hit {
                        len: g + h1.len + o2.hit->0.len,
                        nodes: h1.nodes + o2.hit->0.nodes,
                    },
                ),
            }
        } else {
            plain(o1.trace, Some(0nat))
        },
        None => plain(o1.trace, Some(0nat)),
    }
}


/// A match never reaches beyond the end of the text.
pub proof fn lemma_scans_fit(s: Seq<u8>, pos: int)
    requires
        0 <= pos <= s.len(),
    ensures
        pos + continuations(s, pos) <= s.len(),
        pos + line_rest(s, pos) <= s.len(),
        comment_rest(s, pos) matches Some(n) ==> pos + n <= s.len(),
    decreases s.len() - pos,
{
    if pos < s.len() {
        lemma_scans_fit(s, pos + 1);
    }
}

pub proof fn lemma_blank_fits(s: Seq<u8>, pos: int)
    requires
        0 <= pos <= s.len(),
    ensures
        pos + blank(s, pos) <= s.len(),
{
    if pos + 2 <= s.len() {
        lemma_scans_fit(s, pos + 2);
    }
}

pub proof fn lemma_blanks_fit(s: Seq<u8>, pos: int)
    requires
        0 <= pos <= s.len(),
    ensures
        pos + blanks(s, pos) <= s.len(),
    decreases s.len() - pos,
{
    lemma_blank_fits(s, pos);
    if pos < s.len() && blank(s, pos) > 0 {
        lemma_blanks_fit(s, pos + blank(s, pos));
    }
}

/// Counts the continuation bytes from `pos` on.
pub(crate) fn count_continuations(s: &[u8], pos: usize) -> (n: usize)
    requires
        pos <= s@.len(),
    ensures
        n == continuations(s@, pos as int),
        pos + n <= s@.len(),
{
    let len: usize = s.len();
    let mut n: usize = 0;
    while pos + n < len && 0x80 <= s[pos + n] && s[pos + n] < 0xc0
        invariant
            len == s@.len(),
            pos + n <= len,
            continuations(s@, pos as int) == n + continuations(s@, pos + n),
        decreases s@.len() - pos - n,
    {
        n = n + 1;
    }
    n
}

/// Counts the bytes of the rest of the line.
pub(crate) fn count_line_rest(s: &[u8], pos: usize) -> (n: usize)
    requires
        pos <= s@.len(),
    ensures
        n == line_rest(s@, pos as int),
        pos + n <= s@.len(),
{
    let len: usize = s.len();
    let mut n: usize = 0;
    while pos + n < len && s[pos + n] != 0x0a
        invariant
            len == s@.len(),
            pos + n <= len,
            line_rest(s@, pos as int) == n + line_rest(s@, pos + n),
        decreases s@.len() - pos - n,
    {
        n = n + 1;
    }
    n
}

/// Counts the bytes up to the end of a comment.
fn count_comment_rest(s: &[u8], pos: usize) -> (r: Option<usize>)
    requires
        pos <= s@.len(),
    ensures
        match r {
            Some(n) => comment_rest(s@, pos as int) == Some(n as nat) && pos + n <= s@.len(),
            None => comment_rest(s@, pos as int) is None,
        },
{
    let mut n: usize = 0;
    while s.len() - pos - n >= 2
        invariant
            pos + n <= s@.len(),
            comment_rest(s@, pos as int) == (match comment_rest(s@, pos + n) {
                Some(m) => Some(n as nat + m),
                None => None,
            }),
        decreases s@.len() - pos - n,
    {
        if s[pos + n] == 0x2a && s[pos + n + 1] == 0x2f {
            return Some(n + 2);
        }
        n = n + 1;
    }
    None
}

/// Counts the bytes of the white space or the comment at `pos`.
fn count_blank(s: &[u8], pos: usize) -> (n: usize)
    requires
        pos <= s@.len(),
    ensures
        n == blank(s@, pos as int),
        pos + n <= s@.len(),
{
    if pos >= s.len() {
        return 0;
    }
    let b: u8 = s[pos];
    if b == 0x20 || b == 0x09 || b == 0x0d || b == 0x0a {
        return 1;
    }
    if b != 0x2f || s.len() - pos < 2 {
        return 0;
    }
    if s[pos + 1] == 0x2f {
        2 + count_line_rest(s, pos + 2)
    } else if s[pos + 1] == 0x2a {
        match count_comment_rest(s, pos + 2) {
            Some(n) => 2 + n,
            None => 0,
        }
    } else {
        0
    }
}

/// Counts the bytes of all white space and comments from `pos` on.
pub(crate) fn count_blanks(s: &[u8], pos: usize) -> (n: usize)
    requires
        pos <= s@.len(),
    ensures
        n == blanks(s@, pos as int),
        pos + n <= s@.len(),
{
    let len: usize = s.len();
    let mut n: usize = 0;
    loop
        invariant
            len == s@.len(),
            pos + n <= len,
            blanks(s@, pos as int) == n + blanks(s@, pos + n),
        decreases s@.len() - pos - n,
    {
        let k: usize = count_blank(s, pos + n);
        if k == 0 {
            return n;
        }
        n = n + k;
    }
}

/// Whether the bytes `w` stand at `pos`.
pub(crate) fn word_stands_at(w: &[u8], s: &[u8], pos: usize) -> (r: bool)
    requires
        pos <= s@.len(),
    ensures
        r == stands_at(w@, s@, pos as int),
{
    let len: usize = s.len();
    if w.len() > len - pos {
        return false;
    }
    let mut i: usize = 0;
    while i < w.len()
        invariant
            i <= w@.len(),
            len == s@.len(),
            pos + w@.len() <= len,
            forall|j: int| 0 <= j < i ==> s@[pos + j] == w@[j],
        decreases w@.len() - i,
    {
        if s[pos + i] != w[i] {
            proof {
                assert(s@.subrange(pos as int, pos + w@.len())[i as int] != w@[i as int]);
            }
            return false;
        }
        i = i + 1;
    }
    proof {
        assert(s@.subrange(pos as int, pos + w@.len()) =~= w@);
    }
    true
}

/// Whether `b` is the first byte of a character of `set`.
pub(crate) fn byte_in_set(set: CharSet, b: u8) -> (r: bool)
    ensures
        r == in_set(set, b),
{
    let digit = 0x30 <= b && b <= 0x39;
    let letter = (0x41 <= b && b <= 0x5a) || (0x61 <= b && b <= 0x7a);
    match set {
        CharSet::Digit => digit,
        CharSet::HexDigit => digit || (0x41 <= b && b <= 0x46) || (0x61 <= b && b <= 0x66),
        CharSet::NameStart => letter || b == 0x5f,
        CharSet::NamePart => letter || digit || b == 0x5f,
        CharSet::StringChar => b != 0x22 && b != 0x5c && b != 0x0a,
        CharSet::Any => true,
    }
}

} // verus!
