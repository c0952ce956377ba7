//! What the smallest rules of the grammar match: names, numbers, strings and words.
use vstd::prelude::*;

use crate::grammar::{
    chr, is_atomic, many, opt, or2, rank, rule, rule_body, seq2, seq3, word, CharSet, Expr, Rule,
    TOP_RANK,
};
use crate::locality;
use crate::moved;
use crate::peg;
use crate::peg::Trace;
use crate::text;
use crate::written;

verus! {

/// Where a match of the rule `r` at `pos` ends.
pub open spec fn end_of(r: Rule, s: Seq<u8>, pos: int) -> Option<int> {
    match peg::run(rule(r), s, pos as nat, peg::empty_trace(), false, TOP_RANK as nat).hit {
        Some(h) => Some(pos + h.len),
        None => None,
    }
}

/// Whether all characters of `set` are ASCII.
pub open spec fn is_ascii_set(set: CharSet) -> bool {
    set != CharSet::StringChar && set != CharSet::Any
}

/// Whether the byte at `pos` is the first one of a character of `set`.
pub open spec fn stands_in(set: CharSet, s: Seq<u8>, pos: int) -> bool {
    0 <= pos < s.len() && peg::in_set(set, s[pos])
}

/// Whether the bytes from `pos` up to `end`, and no byte at `end`, are characters of `set`.
pub open spec fn is_longest(set: CharSet, s: Seq<u8>, pos: int, end: int) -> bool {
    &&& 0 <= pos <= end <= s.len()
    &&& forall|i: int| pos <= i < end ==> peg::in_set(set, #[trigger] s[i])
    &&& !stands_in(set, s, end)
}

/// An ASCII character is one byte.
proof fn lemma_one_char(set: CharSet, s: Seq<u8>, pos: nat, trace: Trace, bound: nat)
    requires
        is_ascii_set(set),
        vstd::utf8::valid_utf8(s),
    ensures
        peg::run(chr(set), s, pos, trace, true, bound) == peg::plain(
            trace,
            if stands_in(set, s, pos as int) {
                Some(1nat)
            } else {
                None
            },
        ),
{
    if stands_in(set, s, pos as int) {
        text::lemma_ascii_boundary(s, pos as int);
        assert(peg::continuations(s, pos as int + 1) == 0);
    }
}

proof fn lemma_more_chars(set: CharSet, s: Seq<u8>, pos: nat, trace: Trace, bound: nat)
    requires
        is_ascii_set(set),
        vstd::utf8::valid_utf8(s),
        pos <= s.len(),
    ensures
        ({
            let o = peg::more(chr(set), s, pos, trace, true, bound);
            &&& o.hit matches Some(h)
            &&& o =~= peg::plain(trace, Some(h.len))
            &&& is_longest(set, s, pos as int, (pos + h.len) as int)
        }),
    decreases s.len() - pos,
{
    reveal_with_fuel(peg::more, 2);
    let b2 = peg::bound_after(s, pos, 0, bound);
    lemma_one_char(set, s, pos, trace, b2);
    if stands_in(set, s, pos as int) {
        lemma_more_chars(set, s, pos + 1, trace, TOP_RANK as nat);
    }
}

proof fn lemma_many_chars(set: CharSet, s: Seq<u8>, pos: nat, trace: Trace, bound: nat)
    requires
        is_ascii_set(set),
        vstd::utf8::valid_utf8(s),
        pos <= s.len(),
    ensures
        ({
            let o = peg::run(many(chr(set)), s, pos, trace, true, bound);
            &&& o.hit matches Some(h)
            &&& o =~= peg::plain(trace, Some(h.len))
            &&& is_longest(set, s, pos as int, (pos + h.len) as int)
        }),
{
    lemma_one_char(set, s, pos, trace, bound);
    if stands_in(set, s, pos as int) {
        lemma_more_chars(set, s, pos + 1, trace, TOP_RANK as nat);
    }
}

/// A character of one set and then as many of another one as there are.
pub(crate) proof fn lemma_chars(
    first: CharSet,
    set: CharSet,
    s: Seq<u8>,
    pos: nat,
    trace: Trace,
    bound: nat,
)
    requires
        is_ascii_set(first),
        is_ascii_set(set),
        vstd::utf8::valid_utf8(s),
        pos <= s.len(),
    ensures
        ({
            let o = peg::run(seq2(chr(first), many(chr(set))), s, pos, trace, true, bound);
            &&& o.hit is Some <==> stands_in(first, s, pos as int)
            &&& o =~= peg::plain(
                trace,
                match o.hit {
                    Some(h) => Some(h.len),
                    None => None,
                },
            )
            &&& o.hit matches Some(h) ==> h.len > 0 && is_longest(
                set,
                s,
                pos as int + 1,
                (pos + h.len) as int,
            )
        }),
{
    lemma_one_char(first, s, pos, trace, bound);
    if stands_in(first, s, pos as int) {
        let b2 = peg::bound_after(s, pos, 1, bound);
        lemma_many_chars(set, s, pos + 1, trace, b2);
    }
}

/// Whether a name stands from `start` up to `end`: a letter or `_`, and then all letters, digits
/// and `_` that follow.
pub open spec fn is_name(s: Seq<u8>, start: int, end: int) -> bool {
    start < end && stands_in(CharSet::NameStart, s, start) && is_longest(
        CharSet::NamePart,
        s,
        start + 1,
        end,
    )
}

/// What an atomic rule matches does not depend on what was tried before.
pub(crate) proof fn lemma_atomic_rule(r: Rule, s: Seq<u8>, pos: nat, trace: Trace, bound: nat)
    requires
        is_atomic(r),
        pos <= s.len(),
        (rank(r) as nat) < bound,
    ensures
        end_of(r, s, pos as int) == (match peg::run(
            rule_body(r),
            s,
            pos,
            trace,
            true,
            rank(r) as nat,
        ).hit {
            Some(h) => Some((pos + h.len) as int),
            None => None,
        }),
{
    let first = peg::empty_trace();
    let b = rank(r) as nat;
    assert(r != Rule::mojom_file);
    moved::lemma_body_not_first(r);
    moved::lemma_moved(rule_body(r), s, s, 0, pos, (trace, first), true, b);
}

/// A name starts with a letter or `_` and goes on as long as letters, digits and `_` follow.
/// There is one wherever such a character stands.
pub proof fn name_is_a_longest_run(s: Seq<u8>, pos: int)
    requires
        vstd::utf8::valid_utf8(s),
        0 <= pos <= s.len(),
    ensures
        match end_of(Rule::name, s, pos) {
            Some(end) => is_name(s, pos, end),
            None => !stands_in(CharSet::NameStart, s, pos),
        },
{
    let t = peg::empty_trace();
    lemma_atomic_rule(Rule::name, s, pos as nat, t, TOP_RANK as nat);
    lemma_chars(
        CharSet::NameStart,
        CharSet::NamePart,
        s,
        pos as nat,
        t,
        rank(Rule::name) as nat,
    );
}

/// Whether the character `c` stands at `pos`.
pub open spec fn mark(s: Seq<u8>, pos: int, c: char) -> bool {
    0 <= pos < s.len() && s[pos] == c as u32
}

/// Two parts that match without nodes, one behind the other.
proof fn lemma_plain_cat(
    a: Expr,
    b: Expr,
    s: Seq<u8>,
    pos: nat,
    trace: Trace,
    bound: nat,
    n: nat,
    m: Option<nat>,
)
    requires
        peg::run(a, s, pos, trace, true, bound) == peg::plain(trace, Some(n)),
        peg::run(b, s, pos + n, trace, true, peg::bound_after(s, pos, n, bound)) == peg::plain(
            trace,
            m,
        ),
    ensures
        peg::run(seq2(a, b), s, pos, trace, true, bound) == peg::plain(
            trace,
            match m {
                Some(m) => Some(n + m),
                None => None,
            },
        ),
{
    let o = peg::run(seq2(a, b), s, pos, trace, true, bound);
    if let Some(m) = m {
        assert(o.hit->0.nodes =~= Seq::empty());
    }
}

/// Whether `.` and then the start of a name stand at `pos`.
pub open spec fn dot_goes_on(s: Seq<u8>, pos: int) -> bool {
    mark(s, pos, '.') && stands_in(CharSet::NameStart, s, pos + 1)
}

/// Whether names with dots between them go on from `pos` up to `end` and no further.
pub open spec fn names_reach(s: Seq<u8>, pos: int, end: int) -> bool {
    &&& 0 <= pos <= end <= s.len()
    &&& forall|i: int|
        pos <= i < end ==> peg::in_set(CharSet::NamePart, #[trigger] s[i]) || (dot_goes_on(s, i)
            && i + 1 < end)
    &&& !stands_in(CharSet::NamePart, s, end)
    &&& !dot_goes_on(s, end)
}

/// Whether a name, or several with dots between them, stands from `start` up to `end`, with all
/// of them that follow.
pub open spec fn is_dotted(s: Seq<u8>, start: int, end: int) -> bool {
    start < end && stands_in(CharSet::NameStart, s, start) && names_reach(s, start, end)
}

/// The dot and a name behind it.
spec fn dot_name() -> Expr {
    seq2(word("."), rule(Rule::name))
}

proof fn lemma_name_inside(s: Seq<u8>, pos: nat, trace: Trace, bound: nat)
    requires
        vstd::utf8::valid_utf8(s),
        pos <= s.len(),
        bound > 0,
    ensures
        ({
            let o = peg::run(rule(Rule::name), s, pos, trace, true, bound);
            &&& o.hit is Some <==> stands_in(CharSet::NameStart, s, pos as int)
            &&& o =~= peg::plain(
                trace,
                match o.hit {
                    Some(h) => Some(h.len),
                    None => None,
                },
            )
            &&& o.hit matches Some(h) ==> is_name(s, pos as int, (pos + h.len) as int)
        }),
{
    lemma_chars(
        CharSet::NameStart,
        CharSet::NamePart,
        s,
        pos,
        trace,
        rank(Rule::name) as nat,
    );
}

proof fn lemma_dot_name(s: Seq<u8>, pos: nat, trace: Trace, bound: nat)
    requires
        vstd::utf8::valid_utf8(s),
        pos <= s.len(),
    ensures
        ({
            let o = peg::run(dot_name(), s, pos, trace, true, bound);
            &&& o.hit is Some <==> dot_goes_on(s, pos as int)
            &&& o =~= peg::plain(
                trace,
                match o.hit {
                    Some(h) => Some(h.len),
                    None => None,
                },
            )
            &&& o.hit matches Some(h) ==> is_name(s, pos as int + 1, (pos + h.len) as int)
        }),
{
    reveal_strlit(".");
    assert("."@ =~= seq!['.']);
    locality::lemma_one_byte(".", '.', s, pos as int);
    if mark(s, pos as int, '.') {
        let b2 = peg::bound_after(s, pos, 1, bound);
        lemma_name_inside(s, pos + 1, trace, b2);
        let o2 = peg::run(rule(Rule::name), s, pos + 1, trace, true, b2);
        lemma_plain_cat(
            word("."),
            rule(Rule::name),
            s,
            pos,
            trace,
            bound,
            1,
            match o2.hit {
                Some(h) => Some(h.len),
                None => None,
            },
        );
    }
}

proof fn lemma_more_names(s: Seq<u8>, pos: nat, trace: Trace, bound: nat)
    requires
        vstd::utf8::valid_utf8(s),
        pos <= s.len(),
        !stands_in(CharSet::NamePart, s, pos as int),
    ensures
        ({
            let o = peg::more(dot_name(), s, pos, trace, true, bound);
            &&& o.hit matches Some(h)
            &&& o =~= peg::plain(trace, Some(h.len))
            &&& names_reach(s, pos as int, (pos + h.len) as int)
        }),
    decreases s.len() - pos,
{
    reveal_with_fuel(peg::more, 2);
    let b2 = peg::bound_after(s, pos, 0, bound);
    lemma_dot_name(s, pos, trace, b2);
    let o1 = peg::run(dot_name(), s, pos, trace, true, b2);
    if let Some(h) = o1.hit {
        lemma_more_names(s, pos + h.len, trace, TOP_RANK as nat);
        let o2 = peg::more(dot_name(), s, pos + h.len, trace, true, TOP_RANK as nat);
        let end = pos + h.len + o2.hit->0.len;
        assert forall|i: int| pos <= i < end implies peg::in_set(
            CharSet::NamePart,
            #[trigger] s[i],
        ) || (dot_goes_on(s, i) && i + 1 < end) by {
            if i == pos + 1 {
                assert(stands_in(CharSet::NameStart, s, i));
            }
        }
    }
}

proof fn lemma_many_names(s: Seq<u8>, pos: nat, trace: Trace, bound: nat)
    requires
        vstd::utf8::valid_utf8(s),
        pos <= s.len(),
        !stands_in(CharSet::NamePart, s, pos as int),
    ensures
        ({
            let o = peg::run(many(dot_name()), s, pos, trace, true, bound);
            &&& o.hit matches Some(h)
            &&& o =~= peg::plain(trace, Some(h.len))
            &&& names_reach(s, pos as int, (pos + h.len) as int)
        }),
{
    lemma_dot_name(s, pos, trace, bound);
    let o1 = peg::run(dot_name(), s, pos, trace, true, bound);
    if let Some(h) = o1.hit {
        lemma_more_names(s, pos + h.len, trace, TOP_RANK as nat);
        let o2 = peg::more(dot_name(), s, pos + h.len, trace, true, TOP_RANK as nat);
        let end = pos + h.len + o2.hit->0.len;
        assert forall|i: int| pos <= i < end implies peg::in_set(
            CharSet::NamePart,
            #[trigger] s[i],
        ) || (dot_goes_on(s, i) && i + 1 < end) by {
            if i == pos + 1 {
                assert(stands_in(CharSet::NameStart, s, i));
            }
        }
    }
}

pub(crate) proof fn lemma_identifier(s: Seq<u8>, pos: nat, trace: Trace, bound: nat)
    requires
        vstd::utf8::valid_utf8(s),
        pos <= s.len(),
        bound > 0,
    ensures
        ({
            let o = peg::run(rule_body(Rule::identifier), s, pos, trace, true, bound);
            &&& o.hit is Some <==> stands_in(CharSet::NameStart, s, pos as int)
            &&& o.hit matches Some(h) ==> is_dotted(s, pos as int, (pos + h.len) as int)
        }),
{
    lemma_name_inside(s, pos, trace, bound);
    let o1 = peg::run(rule(Rule::name), s, pos, trace, true, bound);
    if let Some(h1) = o1.hit {
        let b2 = peg::bound_after(s, pos, h1.len, bound);
        let next = pos + h1.len;
        lemma_many_names(s, next, trace, b2);
        let o2 = peg::run(many(dot_name()), s, next, trace, true, b2);
        lemma_plain_cat(
            rule(Rule::name),
            many(dot_name()),
            s,
            pos,
            trace,
            bound,
            h1.len,
            Some(o2.hit->0.len),
        );
        let end = next + o2.hit->0.len;
        assert forall|i: int| pos <= i < end implies peg::in_set(
            CharSet::NamePart,
            #[trigger] s[i],
        ) || (dot_goes_on(s, i) && i + 1 < end) by {
            if i == pos {
                assert(stands_in(CharSet::NameStart, s, i));
            }
        }
    }
}

/// An identifier is a name, and goes on with further names as long as a dot and the start of a
/// name follow.
pub proof fn identifier_is_names_with_dots(s: Seq<u8>, pos: int)
    requires
        vstd::utf8::valid_utf8(s),
        0 <= pos <= s.len(),
    ensures
        match end_of(Rule::identifier, s, pos) {
            Some(end) => is_dotted(s, pos, end),
            None => !stands_in(CharSet::NameStart, s, pos),
        },
{
    let t = peg::empty_trace();
    lemma_atomic_rule(Rule::identifier, s, pos as nat, t, TOP_RANK as nat);
    lemma_identifier(s, pos as nat, t, rank(Rule::identifier) as nat);
}

/// Whether an ordinal stands from `start` up to `end`: `@` and then all digits that follow.
pub open spec fn is_ordinal(s: Seq<u8>, start: int, end: int) -> bool {
    mark(s, start, '@') && start + 1 < end && is_longest(CharSet::Digit, s, start + 1, end)
}

pub(crate) proof fn lemma_ordinal(s: Seq<u8>, pos: nat, trace: Trace, bound: nat)
    requires
        vstd::utf8::valid_utf8(s),
        pos <= s.len(),
    ensures
        ({
            let o = peg::run(rule_body(Rule::ordinal_value), s, pos, trace, true, bound);
            &&& o.hit is Some <==> mark(s, pos as int, '@') && stands_in(
                CharSet::Digit,
                s,
                pos as int + 1,
            )
            &&& o.hit matches Some(h) ==> is_ordinal(s, pos as int, (pos + h.len) as int)
        }),
{
    reveal_strlit("@");
    assert("@"@ =~= seq!['@']);
    locality::lemma_one_byte("@", '@', s, pos as int);
    if mark(s, pos as int, '@') {
        let digits = seq2(chr(CharSet::Digit), many(chr(CharSet::Digit)));
        let b2 = peg::bound_after(s, pos, 1, bound);
        lemma_chars(CharSet::Digit, CharSet::Digit, s, pos + 1, trace, b2);
        let o2 = peg::run(digits, s, pos + 1, trace, true, b2);
        lemma_plain_cat(
            word("@"),
            digits,
            s,
            pos,
            trace,
            bound,
            1,
            match o2.hit {
                Some(h) => Some(h.len),
                None => None,
            },
        );
        if let Some(h2) = o2.hit {
            assert forall|i: int| pos + 1 <= i < pos + 1 + h2.len implies peg::in_set(
                CharSet::Digit,
                #[trigger] s[i],
            ) by {
                if i == pos + 1 {
                    assert(stands_in(CharSet::Digit, s, i));
                }
            }
        }
    }
}

/// An ordinal is `@` and digits, all that follow it. There is one wherever `@` and a digit
/// stand.
pub proof fn ordinal_is_at_and_digits(s: Seq<u8>, pos: int)
    requires
        vstd::utf8::valid_utf8(s),
        0 <= pos <= s.len(),
    ensures
        match end_of(Rule::ordinal_value, s, pos) {
            Some(end) => is_ordinal(s, pos, end),
            None => !(mark(s, pos, '@') && stands_in(CharSet::Digit, s, pos + 1)),
        },
{
    let t = peg::empty_trace();
    lemma_atomic_rule(Rule::ordinal_value, s, pos as nat, t, TOP_RANK as nat);
    lemma_ordinal(s, pos as nat, t, rank(Rule::ordinal_value) as nat);
}

/// Where the characters of `set` from `pos` on end.
pub open spec fn run_end(set: CharSet, s: Seq<u8>, pos: int) -> int
    decreases s.len() - pos,
{
    if stands_in(set, s, pos) {
        run_end(set, s, pos + 1)
    } else {
        pos
    }
}

/// A run of characters of a set goes on as long as there are any.
pub proof fn run_is_longest(set: CharSet, s: Seq<u8>, pos: int)
    requires
        0 <= pos <= s.len(),
    ensures
        is_longest(set, s, pos, run_end(set, s, pos)),
    decreases s.len() - pos,
{
    if stands_in(set, s, pos) {
        run_is_longest(set, s, pos + 1);
    }
}

proof fn lemma_run_end(set: CharSet, s: Seq<u8>, pos: int, end: int)
    requires
        is_longest(set, s, pos, end),
    ensures
        run_end(set, s, pos) == end,
    decreases end - pos,
{
    if pos < end {
        lemma_run_end(set, s, pos + 1, end);
    }
}

/// One character of a set and all that follow it.
spec fn chars_of(set: CharSet) -> Expr {
    seq2(chr(set), many(chr(set)))
}

proof fn lemma_run(set: CharSet, s: Seq<u8>, pos: nat, trace: Trace, bound: nat)
    requires
        is_ascii_set(set),
        vstd::utf8::valid_utf8(s),
        pos <= s.len(),
    ensures
        peg::run(chars_of(set), s, pos, trace, true, bound) == peg::plain(
            trace,
            if stands_in(set, s, pos as int) {
                Some((run_end(set, s, pos as int) - pos) as nat)
            } else {
                None
            },
        ),
        pos <= run_end(set, s, pos as int) <= s.len(),
{
    lemma_chars(set, set, s, pos, trace, bound);
    run_is_longest(set, s, pos as int);
    let o = peg::run(chars_of(set), s, pos, trace, true, bound);
    if let Some(h) = o.hit {
        assert(is_longest(set, s, pos as int, (pos + h.len) as int)) by {
            assert forall|i: int| pos <= i < pos + h.len implies peg::in_set(
                set,
                #[trigger] s[i],
            ) by {
                if i == pos {
                    assert(stands_in(set, s, i));
                }
            }
        }
        lemma_run_end(set, s, pos as int, (pos + h.len) as int);
    }
}

/// The number of signs at `pos`, none or one.
pub open spec fn sign_len(s: Seq<u8>, pos: int) -> nat {
    if mark(s, pos, '+') || mark(s, pos, '-') {
        1
    } else {
        0
    }
}

/// A sign, if there is one.
spec fn sign() -> Expr {
    opt(or2(word("+"), word("-")))
}

proof fn lemma_sign(s: Seq<u8>, pos: nat, trace: Trace, bound: nat)
    ensures
        peg::run(sign(), s, pos, trace, true, bound) == peg::plain(
            trace,
            Some(sign_len(s, pos as int)),
        ),
{
    reveal_strlit("+");
    reveal_strlit("-");
    assert("+"@ =~= seq!['+']);
    assert("-"@ =~= seq!['-']);
    locality::lemma_one_byte("+", '+', s, pos as int);
    locality::lemma_one_byte("-", '-', s, pos as int);
    let a = peg::run(word("+"), s, pos, trace, true, bound);
    let b = peg::run(word("-"), s, pos, trace, true, bound);
    assert(peg::run(or2(word("+"), word("-")), s, pos, trace, true, bound) == peg::plain(
        trace,
        if mark(s, pos as int, '+') || mark(s, pos as int, '-') {
            Some(1nat)
        } else {
            None
        },
    ));
}

/// Whether `0x` or `0X` and a hexadecimal digit stand at `pos`.
pub open spec fn hex_at(s: Seq<u8>, pos: int) -> bool {
    mark(s, pos, '0') && (mark(s, pos + 1, 'x') || mark(s, pos + 1, 'X')) && stands_in(
        CharSet::HexDigit,
        s,
        pos + 2,
    )
}

/// The mark of a hexadecimal number.
spec fn hex_mark() -> Expr {
    or2(word("0x"), word("0X"))
}

proof fn lemma_hex_mark(s: Seq<u8>, pos: nat, trace: Trace, bound: nat)
    ensures
        peg::run(hex_mark(), s, pos, trace, true, bound) == peg::plain(
            trace,
            if mark(s, pos as int, '0') && (mark(s, pos as int + 1, 'x') || mark(
                s,
                pos as int + 1,
                'X',
            )) {
                Some(2nat)
            } else {
                None
            },
        ),
{
    let p = pos as int;
    reveal_strlit("0x");
    reveal_strlit("0X");
    let a = "0x"@;
    let b = "0X"@;
    written::lemma_word_stands(a, s, p);
    written::lemma_word_stands(b, s, p);
    if peg::stands_at(text::utf8(a), s, p) {
        assert(s[p + 0] == a[0] as u32 && s[p + 1] == a[1] as u32);
    }
    if peg::stands_at(text::utf8(b), s, p) {
        assert(s[p + 0] == b[0] as u32 && s[p + 1] == b[1] as u32);
    }
    if mark(s, p, '0') && mark(s, p + 1, 'x') {
        assert forall|i: int| 0 <= i < a.len() implies s[p + i] == #[trigger] a[i] as u32 by {
            assert(i == 0 || i == 1);
        }
    }
    if mark(s, p, '0') && mark(s, p + 1, 'X') {
        assert forall|i: int| 0 <= i < b.len() implies s[p + i] == #[trigger] b[i] as u32 by {
            assert(i == 0 || i == 1);
        }
    }
    let x = peg::run(word("0x"), s, pos, trace, true, bound);
    let y = peg::run(word("0X"), s, pos, trace, true, bound);
    assert(x == peg::plain(
        trace,
        if mark(s, p, '0') && mark(s, p + 1, 'x') {
            Some(2nat)
        } else {
            None
        },
    ));
    assert(y == peg::plain(
        trace,
        if mark(s, p, '0') && mark(s, p + 1, 'X') {
            Some(2nat)
        } else {
            None
        },
    ));
}

proof fn lemma_integer(s: Seq<u8>, pos: nat, trace: Trace, bound: nat)
    requires
        vstd::utf8::valid_utf8(s),
        pos <= s.len(),
    ensures
        ({
            let p = pos as int + sign_len(s, pos as int);
            peg::run(rule_body(Rule::integer), s, pos, trace, true, bound) == peg::plain(
                trace,
                if hex_at(s, p) {
                    Some((run_end(CharSet::HexDigit, s, p + 2) - pos) as nat)
                } else if stands_in(CharSet::Digit, s, p) {
                    Some((run_end(CharSet::Digit, s, p) - pos) as nat)
                } else {
                    None
                },
            )
        }),
{
    let n = sign_len(s, pos as int);
    let p = pos + n;
    let b2 = peg::bound_after(s, pos, n, bound);
    let hex = seq2(hex_mark(), chars_of(CharSet::HexDigit));
    let either = or2(hex, chars_of(CharSet::Digit));
    lemma_sign(s, pos, trace, bound);
    lemma_hex_mark(s, p, trace, b2);
    lemma_run(CharSet::Digit, s, p, trace, b2);
    let marked = mark(s, p as int, '0') && (mark(s, p as int + 1, 'x') || mark(
        s,
        p as int + 1,
        'X',
    ));
    if marked {
        let b3 = peg::bound_after(s, p, 2, b2);
        lemma_run(CharSet::HexDigit, s, p + 2, trace, b3);
        lemma_plain_cat(
            hex_mark(),
            chars_of(CharSet::HexDigit),
            s,
            p,
            trace,
            b2,
            2,
            if hex_at(s, p as int) {
                Some((run_end(CharSet::HexDigit, s, p as int + 2) - (p + 2)) as nat)
            } else {
                None
            },
        );
    } else {
        assert(peg::run(hex, s, p, trace, true, b2) == peg::plain(trace, None));
    }
    let m = if hex_at(s, p as int) {
        Some((run_end(CharSet::HexDigit, s, p as int + 2) - p) as nat)
    } else if stands_in(CharSet::Digit, s, p as int) {
        Some((run_end(CharSet::Digit, s, p as int) - p) as nat)
    } else {
        None
    };
    assert(peg::run(either, s, p, trace, true, b2) == peg::plain(trace, m));
    lemma_plain_cat(sign(), either, s, pos, trace, bound, n, m);
    assert(rule_body(Rule::integer) == seq2(sign(), either));
}

/// An integer is a sign if there is one, and then `0x` or `0X` and all hexadecimal digits that
/// follow, or else all decimal digits that follow. There has to be a digit.
pub proof fn integer_is_digits(s: Seq<u8>, pos: int)
    requires
        vstd::utf8::valid_utf8(s),
        0 <= pos <= s.len(),
    ensures
        ({
            let p = pos + sign_len(s, pos);
            end_of(Rule::integer, s, pos) == if hex_at(s, p) {
                Some(run_end(CharSet::HexDigit, s, p + 2))
            } else if stands_in(CharSet::Digit, s, p) {
                Some(run_end(CharSet::Digit, s, p))
            } else {
                None
            }
        }),
{
    let t = peg::empty_trace();
    let p = pos + sign_len(s, pos);
    lemma_atomic_rule(Rule::integer, s, pos as nat, t, TOP_RANK as nat);
    lemma_integer(s, pos as nat, t, rank(Rule::integer) as nat);
    run_is_longest(CharSet::Digit, s, p);
    if hex_at(s, p) {
        run_is_longest(CharSet::HexDigit, s, p + 2);
    }
}

/// Where an exponent at `pos` ends: `e` or `E`, a sign if there is one, and all digits that
/// follow. There has to be a digit.
pub open spec fn exponent_end(s: Seq<u8>, pos: int) -> Option<int> {
    let p = pos + 1 + sign_len(s, pos + 1);
    if (mark(s, pos, 'e') || mark(s, pos, 'E')) && stands_in(CharSet::Digit, s, p) {
        Some(run_end(CharSet::Digit, s, p))
    } else {
        None
    }
}

/// An exponent.
spec fn exponent() -> Expr {
    seq3(or2(word("e"), word("E")), sign(), chars_of(CharSet::Digit))
}

/// The number of bytes from `pos` up to `end`.
spec fn len_to(end: Option<int>, pos: int) -> Option<nat> {
    match end {
        Some(e) => Some((e - pos) as nat),
        None => None,
    }
}

proof fn lemma_exponent(s: Seq<u8>, pos: nat, trace: Trace, bound: nat)
    requires
        vstd::utf8::valid_utf8(s),
        pos <= s.len(),
    ensures
        peg::run(exponent(), s, pos, trace, true, bound) == peg::plain(
            trace,
            len_to(exponent_end(s, pos as int), pos as int),
        ),
        exponent_end(s, pos as int) matches Some(e) ==> pos < e <= s.len(),
{
    let q = pos as int;
    reveal_strlit("e");
    reveal_strlit("E");
    assert("e"@ =~= seq!['e']);
    assert("E"@ =~= seq!['E']);
    locality::lemma_one_byte("e", 'e', s, q);
    locality::lemma_one_byte("E", 'E', s, q);
    let letter = or2(word("e"), word("E"));
    let x = peg::run(word("e"), s, pos, trace, true, bound);
    let y = peg::run(word("E"), s, pos, trace, true, bound);
    assert(peg::run(letter, s, pos, trace, true, bound) == peg::plain(
        trace,
        if mark(s, q, 'e') || mark(s, q, 'E') {
            Some(1nat)
        } else {
            None
        },
    ));
    if mark(s, q, 'e') || mark(s, q, 'E') {
        let b2 = peg::bound_after(s, pos, 1, bound);
        let n = sign_len(s, q + 1);
        lemma_sign(s, pos + 1, trace, b2);
        let b3 = peg::bound_after(s, pos + 1, n, b2);
        let p = pos + 1 + n;
        lemma_run(CharSet::Digit, s, p, trace, b3);
        let m = if stands_in(CharSet::Digit, s, p as int) {
            Some((run_end(CharSet::Digit, s, p as int) - p) as nat)
        } else {
            None
        };
        lemma_plain_cat(sign(), chars_of(CharSet::Digit), s, pos + 1, trace, b2, n, m);
        let m2 = match m {
            Some(m) => Some(n + m),
            None => None,
        };
        lemma_plain_cat(
            letter,
            seq2(sign(), chars_of(CharSet::Digit)),
            s,
            pos,
            trace,
            bound,
            1,
            m2,
        );
    } else {
        assert(peg::run(exponent(), s, pos, trace, true, bound) == peg::plain(trace, None));
    }
}

/// Where a fraction at `pos` ends: a dot and all digits that follow, and an exponent if there is
/// one. There has to be a digit.
pub open spec fn fraction_end(s: Seq<u8>, pos: int) -> Option<int> {
    if mark(s, pos, '.') && stands_in(CharSet::Digit, s, pos + 1) {
        let f = run_end(CharSet::Digit, s, pos + 1);
        match exponent_end(s, f) {
            Some(e) => Some(e),
            None => Some(f),
        }
    } else {
        None
    }
}

/// A fraction.
spec fn fraction() -> Expr {
    seq3(word("."), chars_of(CharSet::Digit), opt(exponent()))
}

proof fn lemma_fraction(s: Seq<u8>, pos: nat, trace: Trace, bound: nat)
    requires
        vstd::utf8::valid_utf8(s),
        pos <= s.len(),
    ensures
        peg::run(fraction(), s, pos, trace, true, bound) == peg::plain(
            trace,
            len_to(fraction_end(s, pos as int), pos as int),
        ),
        fraction_end(s, pos as int) matches Some(e) ==> pos < e <= s.len(),
{
    let q = pos as int;
    reveal_strlit(".");
    assert("."@ =~= seq!['.']);
    locality::lemma_one_byte(".", '.', s, q);
    let tail = seq2(chars_of(CharSet::Digit), opt(exponent()));
    if mark(s, q, '.') {
        let b2 = peg::bound_after(s, pos, 1, bound);
        let p = pos + 1;
        lemma_run(CharSet::Digit, s, p, trace, b2);
        if stands_in(CharSet::Digit, s, p as int) {
            let f = run_end(CharSet::Digit, s, p as int);
            let n = (f - p) as nat;
            let b3 = peg::bound_after(s, p, n, b2);
            lemma_exponent(s, f as nat, trace, b3);
            let m = match exponent_end(s, f) {
                Some(e) => Some((e - f) as nat),
                None => Some(0nat),
            };
            assert(peg::run(opt(exponent()), s, f as nat, trace, true, b3) == peg::plain(trace, m));
            lemma_plain_cat(
                chars_of(CharSet::Digit),
                opt(exponent()),
                s,
                p,
                trace,
                b2,
                n,
                m,
            );
            lemma_plain_cat(word("."), tail, s, pos, trace, bound, 1, Some(n + m->0));
        } else {
            assert(peg::run(tail, s, p, trace, true, b2) == peg::plain(trace, None));
            lemma_plain_cat(word("."), tail, s, pos, trace, bound, 1, None);
        }
    } else {
        assert(peg::run(fraction(), s, pos, trace, true, bound) == peg::plain(trace, None));
    }
}

/// Where a floating-point number at `pos` ends: a sign if there is one, all digits that follow,
/// and then a fraction, or else an exponent.
pub open spec fn float_end(s: Seq<u8>, pos: int) -> Option<int> {
    let p = pos + sign_len(s, pos);
    if stands_in(CharSet::Digit, s, p) {
        let d = run_end(CharSet::Digit, s, p);
        match fraction_end(s, d) {
            Some(e) => Some(e),
            None => exponent_end(s, d),
        }
    } else {
        None
    }
}

/// What follows the sign of a floating-point number.
spec fn float_tail() -> Expr {
    seq2(chars_of(CharSet::Digit), or2(fraction(), exponent()))
}

/// Where what follows the sign of a floating-point number ends.
spec fn float_tail_end(s: Seq<u8>, pos: int) -> Option<int> {
    if stands_in(CharSet::Digit, s, pos) {
        let d = run_end(CharSet::Digit, s, pos);
        match fraction_end(s, d) {
            Some(e) => Some(e),
            None => exponent_end(s, d),
        }
    } else {
        None
    }
}

#[verifier::spinoff_prover]
proof fn lemma_float_tail(s: Seq<u8>, pos: nat, trace: Trace, bound: nat)
    requires
        vstd::utf8::valid_utf8(s),
        pos <= s.len(),
    ensures
        peg::run(float_tail(), s, pos, trace, true, bound) == peg::plain(
            trace,
            len_to(float_tail_end(s, pos as int), pos as int),
        ),
        float_tail_end(s, pos as int) matches Some(e) ==> pos < e <= s.len(),
{
    let p = pos as int;
    let digits = chars_of(CharSet::Digit);
    let either = or2(fraction(), exponent());
    lemma_run(CharSet::Digit, s, pos, trace, bound);
    if stands_in(CharSet::Digit, s, p) {
        let d = run_end(CharSet::Digit, s, p);
        let k = (d - p) as nat;
        let b3 = peg::bound_after(s, pos, k, bound);
        lemma_fraction(s, d as nat, trace, b3);
        lemma_exponent(s, d as nat, trace, b3);
        let x = len_to(
            match fraction_end(s, d) {
                Some(e) => Some(e),
                None => exponent_end(s, d),
            },
            d,
        );
        assert(peg::run(either, s, d as nat, trace, true, b3) == peg::plain(trace, x));
        lemma_plain_cat(digits, either, s, pos, trace, bound, k, x);
    } else {
        assert(peg::run(float_tail(), s, pos, trace, true, bound) == peg::plain(trace, None));
    }
}

/// A floating-point number has digits, and a fraction or an exponent.
pub proof fn float_is_digits_and_more(s: Seq<u8>, pos: int)
    requires
        vstd::utf8::valid_utf8(s),
        0 <= pos <= s.len(),
    ensures
        end_of(Rule::float, s, pos) == float_end(s, pos),
{
    let t = peg::empty_trace();
    let b = rank(Rule::float) as nat;
    let n = sign_len(s, pos);
    let pn = pos as nat;
    let p = pn + n;
    let b2 = peg::bound_after(s, pn, n, b);
    lemma_atomic_rule(Rule::float, s, pn, t, TOP_RANK as nat);
    lemma_float_body();
    lemma_sign(s, pn, t, b);
    lemma_float_tail(s, p, t, b2);
    let m = len_to(float_tail_end(s, p as int), p as int);
    lemma_plain_cat(sign(), float_tail(), s, pn, t, b, n, m);
}

proof fn lemma_float_body()
    ensures
        rule_body(Rule::float) == seq2(sign(), float_tail()),
{
}

/// A string starts with a double quote and reaches up to the double quote that ends it.
pub proof fn string_stands_in_quotes(s: Seq<u8>, pos: int)
    requires
        0 <= pos <= s.len(),
    ensures
        end_of(Rule::string_literal, s, pos) == (if mark(s, pos, '"') {
            match locality::string_rest(s, pos + 1) {
                Some(n) => Some(pos + 1 + n),
                None => None,
            }
        } else {
            None
        }),
{
    let t = peg::empty_trace();
    lemma_atomic_rule(Rule::string_literal, s, pos as nat, t, TOP_RANK as nat);
    locality::lemma_string(s, pos as nat, t, rank(Rule::string_literal) as nat);
}

/// A string ends with the first double quote that no backslash stands before. A backslash takes
/// the byte behind it along, whatever it is. No line feed and no end of the text stands in a
/// string otherwise.
pub proof fn string_ends_at_its_quote(s: Seq<u8>, pos: int)
    requires
        0 <= pos <= s.len(),
    ensures
        mark(s, pos, '"') ==> locality::string_rest(s, pos) == Some(1nat),
        mark(s, pos, '\n') || pos == s.len() ==> locality::string_rest(s, pos) is None,
        mark(s, pos, '\\') && pos + 1 == s.len() ==> locality::string_rest(s, pos) is None,
        mark(s, pos, '\\') && pos + 1 < s.len() ==> locality::string_rest(s, pos) == (
        match locality::string_rest(s, pos + 2) {
            Some(n) => Some(n + 2),
            None => None,
        }),
        pos < s.len() && !mark(s, pos, '"') && !mark(s, pos, '\n') && !mark(s, pos, '\\')
            ==> locality::string_rest(s, pos) == (match locality::string_rest(s, pos + 1) {
            Some(n) => Some(n + 1),
            None => None,
        }),
{
}

} // verus!
