//! What a statement matches depends on the text up to its semicolon alone.
//!
//! [`statement_end`] finds that semicolon without the grammar, by braces, string literals and
//! comments. Every match of the grammar goes along with it, so that no attempt to match a
//! statement, successful or not, looks at what stands behind.
use vstd::prelude::*;

use crate::grammar::{
    chr, is_atomic, many, or2, rank, rule_body, seq2, word, CharSet, Expr, Rule, TOP_RANK,
};
use crate::peg;
use crate::peg::Trace;
use crate::ranks;
use crate::text;

verus! {

/// The number of bytes from `pos` up to and with the double quote that ends a string literal.
pub open spec fn string_rest(s: Seq<u8>, pos: int) -> Option<nat>
    decreases s.len() - pos,
{
    if !(0 <= pos < s.len()) || s[pos] == 0x0a {
        None
    } else if s[pos] == 0x22 {
        Some(1)
    } else if s[pos] == 0x5c {
        if pos + 1 < s.len() {
            match string_rest(s, pos + 2) {
                Some(n) => Some(n + 2),
                None => None,
            }
        } else {
            None
        }
    } else {
        match string_rest(s, pos + 1) {
            Some(n) => Some(n + 1),
            None => None,
        }
    }
}

/// The place behind the first semicolon from `pos` on that stands in no comment, in no string
/// literal and in no braces, where `depth` braces are open at `pos`.
pub open spec fn statement_end(s: Seq<u8>, pos: int, depth: int) -> Option<int>
    decreases (if pos < s.len() { s.len() - pos } else { 0 }),
{
    if !(0 <= pos < s.len()) {
        None
    } else if peg::blank(s, pos) > 0 {
        statement_end(s, pos + peg::blank(s, pos), depth)
    } else if s[pos] == 0x2f {
        None
    } else if s[pos] == 0x22 {
        match string_rest(s, pos + 1) {
            Some(n) => statement_end(s, pos + 1 + n, depth),
            None => None,
        }
    } else if s[pos] == 0x7b {
        statement_end(s, pos + 1, depth + 1)
    } else if s[pos] == 0x7d {
        if depth >= 1 {
            statement_end(s, pos + 1, depth - 1)
        } else {
            None
        }
    } else if s[pos] == 0x3b && depth <= 0 {
        Some(pos + 1)
    } else {
        statement_end(s, pos + 1, depth)
    }
}

/// Whether `c` is ASCII and neither white space nor a sign that opens or closes anything.
pub open spec fn ordinary(c: char) -> bool {
    &&& ' ' < c < '\u{7f}'
    &&& c != '"'
    &&& c != '/'
    &&& c != '{'
    &&& c != '}'
    &&& c != ';'
}

/// Whether all of `chars` are ordinary.
pub open spec fn all_ordinary(chars: Seq<char>) -> bool {
    forall|i: int| 0 <= i < chars.len() ==> ordinary(#[trigger] chars[i])
}

/// Whether `chars` are the character `c`.
pub open spec fn is_char(chars: Seq<char>, c: char) -> bool {
    chars.len() == 1 && chars[0] == c
}

/// How many braces a match of `r` leaves open.
pub open spec fn rule_net(r: Rule) -> int {
    match r {
        Rule::t_lbrace => 1,
        Rule::t_rbrace => -1,
        _ => 0,
    }
}

/// How many braces a match of `e` leaves open.
pub open spec fn net(e: Expr) -> int
    decreases e,
{
    match e {
        Expr::Word(w) => if is_char(w@, '{') {
            1
        } else if is_char(w@, '}') {
            -1
        } else {
            0
        },
        Expr::Rule(r) => rule_net(r),
        Expr::Cat(a, b) => net(*a) + net(*b),
        Expr::Or(a, _) => net(*a),
        _ => 0,
    }
}

/// Whether `r` can be tried where `depth` braces are open without passing the end of the
/// statement.
pub open spec fn rule_stays(r: Rule, depth: int) -> bool {
    match r {
        Rule::EOI | Rule::mojom_file | Rule::statement | Rule::module_stmt | Rule::import_stmt
        | Rule::interface | Rule::struct_stmt | Rule::union_stmt => false,
        Rule::t_rbrace | Rule::t_semicolon | Rule::const_stmt | Rule::enum_stmt
        | Rule::method_stmt | Rule::struct_field | Rule::union_field | Rule::interface_body
        | Rule::struct_item => depth >= 1,
        _ => depth >= 0,
    }
}

/// Whether `e` can be tried where `depth` braces are open without passing the end of the
/// statement.
pub open spec fn stays(e: Expr, depth: int) -> bool
    decreases e,
{
    match e {
        Expr::Start => false,
        Expr::End => false,
        Expr::Word(w) => w@.len() > 0 && (all_ordinary(w@) || (is_char(w@, '{') && depth >= 0) || (
        depth >= 1 && (is_char(w@, '}') || is_char(w@, ';')))),
        Expr::Keyword(w) => w@.len() > 0 && all_ordinary(w@),
        Expr::Char(set) => set != CharSet::Any && set != CharSet::StringChar,
        Expr::Rule(r) => rule_stays(r, depth),
        Expr::Cat(a, b) => stays(*a, depth) && stays(*b, depth + net(*a)),
        Expr::Or(a, b) => stays(*a, depth) && stays(*b, depth) && net(*a) == net(*b),
        Expr::Opt(a) => stays(*a, depth) && net(*a) == 0,
        Expr::Many(a) => stays(*a, depth) && net(*a) == 0,
    }
}

/// Whether `r` matches up to the end of the statement.
pub open spec fn rule_closes(r: Rule) -> bool {
    match r {
        Rule::statement | Rule::module_stmt | Rule::import_stmt | Rule::interface
        | Rule::struct_stmt | Rule::union_stmt | Rule::enum_stmt | Rule::const_stmt
        | Rule::t_semicolon => true,
        _ => false,
    }
}

/// Whether `e` matches up to the end of the statement where `depth` braces are open.
pub open spec fn closes(e: Expr, depth: int) -> bool
    decreases e,
{
    match e {
        Expr::Word(w) => depth == 0 && is_char(w@, ';'),
        Expr::Rule(r) => depth == 0 && rule_closes(r),
        Expr::Cat(a, b) => stays(*a, depth) && closes(*b, depth + net(*a)),
        Expr::Or(a, b) => closes(*a, depth) && closes(*b, depth),
        _ => false,
    }
}

/// What holds of the body of `r`.
spec fn body_stays(r: Rule, depth: int) -> bool {
    &&& rule_stays(r, depth) && r != Rule::string_literal ==> stays(rule_body(r), depth) && net(
        rule_body(r),
    ) == rule_net(r)
    &&& rule_closes(r) && depth == 0 ==> closes(rule_body(r), 0)
}

/// The bodies of tokens.
#[verifier::spinoff_prover]
proof fn lemma_token(r: Rule, depth: int)
    ensures
        ranks::is_token(r) ==> body_stays(r, depth),
{
    reveal_with_fuel(net, 13);
    reveal_with_fuel(stays, 13);
    reveal_with_fuel(closes, 13);
    match r {
        Rule::t_array => {
            reveal_strlit("array");
        },
        Rule::t_associated => {
            reveal_strlit("associated");
        },
        Rule::t_const => {
            reveal_strlit("const");
        },
        Rule::t_handle => {
            reveal_strlit("handle");
        },
        Rule::t_import => {
            reveal_strlit("import");
        },
        Rule::t_interface => {
            reveal_strlit("interface");
        },
        Rule::t_map => {
            reveal_strlit("map");
        },
        Rule::t_module => {
            reveal_strlit("module");
        },
        Rule::t_struct => {
            reveal_strlit("struct");
        },
        Rule::t_union => {
            reveal_strlit("union");
        },
        Rule::t_amp => {
            reveal_strlit("&");
        },
        Rule::t_arrow => {
            reveal_strlit("=>");
        },
        Rule::t_comma => {
            reveal_strlit(",");
        },
        Rule::t_equal => {
            reveal_strlit("=");
        },
        Rule::t_langlebracket => {
            reveal_strlit("<");
        },
        Rule::t_lbrace => {
            reveal_strlit("{");
        },
        Rule::t_lbracket => {
            reveal_strlit("[");
        },
        Rule::t_lparen => {
            reveal_strlit("(");
        },
        Rule::t_nullable => {
            reveal_strlit("?");
        },
        Rule::t_ranglebracket => {
            reveal_strlit(">");
        },
        Rule::t_rbrace => {
            reveal_strlit("}");
        },
        Rule::t_rbracket => {
            reveal_strlit("]");
        },
        Rule::t_rparen => {
            reveal_strlit(")");
        },
        Rule::t_semicolon => {
            reveal_strlit(";");
        },
        _ => {},
    }
}

/// The bodies of other rules with strings in them.
#[verifier::spinoff_prover]
proof fn lemma_lexeme(r: Rule, depth: int)
    ensures
        ranks::is_lexeme(r) ==> body_stays(r, depth),
{
    reveal_with_fuel(net, 13);
    reveal_with_fuel(stays, 13);
    reveal_with_fuel(closes, 13);
    match r {
        Rule::enum_stmt => {
            reveal_strlit("enum");
        },
        Rule::literal => {
            reveal_strlit("default");
            reveal_strlit("false");
            reveal_strlit("true");
        },
        Rule::float => {
            reveal_strlit("+");
            reveal_strlit("-");
            reveal_strlit(".");
            reveal_strlit("E");
            reveal_strlit("e");
        },
        Rule::integer => {
            reveal_strlit("+");
            reveal_strlit("-");
            reveal_strlit("0X");
            reveal_strlit("0x");
        },
        Rule::string_literal => {
            reveal_strlit("\"");
            reveal_strlit("\\");
        },
        Rule::specific_handle_type => {
            reveal_strlit("data_pipe_consumer");
            reveal_strlit("data_pipe_producer");
            reveal_strlit("message_pipe");
            reveal_strlit("platform");
            reveal_strlit("shared_buffer");
        },
        Rule::pending_type => {
            reveal_strlit("pending_associated_receiver");
            reveal_strlit("pending_associated_remote");
            reveal_strlit("pending_receiver");
            reveal_strlit("pending_remote");
        },
        Rule::numeric_type => {
            reveal_strlit("bool");
            reveal_strlit("double");
            reveal_strlit("float");
            reveal_strlit("int16");
            reveal_strlit("int32");
            reveal_strlit("int64");
            reveal_strlit("int8");
            reveal_strlit("uint16");
            reveal_strlit("uint32");
            reveal_strlit("uint64");
            reveal_strlit("uint8");
        },
        Rule::ordinal_value => {
            reveal_strlit("@");
        },
        Rule::identifier => {
            reveal_strlit(".");
        },
        _ => {},
    }
}

/// The bodies of rules that are made of other rules.
#[verifier::spinoff_prover]
proof fn lemma_made_of_rules(r: Rule, depth: int)
    ensures
        !ranks::is_token(r) && !ranks::is_lexeme(r) ==> body_stays(r, depth),
{
    reveal_with_fuel(net, 13);
    reveal_with_fuel(stays, 13);
    reveal_with_fuel(closes, 13);
}

/// The body of every rule goes along with the end of the statement.
proof fn lemma_body_stays(r: Rule, depth: int)
    ensures
        body_stays(r, depth),
{
    lemma_token(r, depth);
    lemma_lexeme(r, depth);
    lemma_made_of_rules(r, depth);
}

/// The end of a statement lies behind a semicolon in the text.
proof fn lemma_end(s: Seq<u8>, pos: int, depth: int)
    ensures
        statement_end(s, pos, depth) matches Some(p) ==> 0 <= pos < p <= s.len() && s[p - 1]
            == 0x3b,
    decreases (if pos < s.len() { s.len() - pos } else { 0 }),
{
    if 0 <= pos < s.len() {
        let n = peg::blank(s, pos);
        if n > 0 {
            lemma_end(s, pos + n, depth);
        } else if s[pos] == 0x22 {
            if let Some(m) = string_rest(s, pos + 1) {
                lemma_end(s, pos + 1 + m, depth);
            }
        } else {
            lemma_end(s, pos + 1, depth + 1);
            lemma_end(s, pos + 1, depth - 1);
            lemma_end(s, pos + 1, depth);
        }
    }
}

/// Blanks do not matter.
pub(crate) proof fn lemma_over_blanks(s: Seq<u8>, pos: int, depth: int)
    requires
        0 <= pos <= s.len(),
    ensures
        statement_end(s, pos, depth) == statement_end(s, pos + peg::blanks(s, pos), depth),
    decreases s.len() - pos,
{
    peg::lemma_blank_fits(s, pos);
    if pos < s.len() && peg::blank(s, pos) > 0 {
        lemma_over_blanks(s, pos + peg::blank(s, pos), depth);
    }
}

/// Whether `b` is neither white space nor opens or closes anything.
spec fn ordinary_byte(b: u8) -> bool {
    b > 0x20 && b != 0x22 && b != 0x2f && b != 0x7b && b != 0x7d && b != 0x3b
}

/// Ordinary bytes do not matter.
proof fn lemma_over_ordinary(s: Seq<u8>, pos: int, n: nat, depth: int)
    requires
        0 <= pos,
        pos + n <= s.len(),
        forall|i: int| pos <= i < pos + n ==> ordinary_byte(#[trigger] s[i]),
    ensures
        statement_end(s, pos, depth) == statement_end(s, pos + n, depth),
    decreases n,
{
    if n > 0 {
        assert(ordinary_byte(s[pos]));
        lemma_over_ordinary(s, pos + 1, (n - 1) as nat, depth);
    }
}

/// The bytes of ASCII characters.
pub(crate) proof fn lemma_ascii_bytes(w: Seq<char>)
    requires
        vstd::utf8::is_ascii_chars(w),
    ensures
        text::utf8(w).len() == w.len(),
        forall|i: int| 0 <= i < w.len() ==> #[trigger] text::utf8(w)[i] == w[i] as u8,
{
    vstd::utf8::is_ascii_chars_encode_utf8(w);
}

/// The bytes of ordinary characters.
proof fn lemma_ordinary_bytes(w: Seq<char>)
    requires
        all_ordinary(w),
    ensures
        text::utf8(w).len() == w.len(),
        forall|i: int| 0 <= i < w.len() ==> ordinary_byte(#[trigger] text::utf8(w)[i]),
{
    assert forall|i: int| 0 <= i < w.len() implies '\0' <= #[trigger] w[i] <= '\u{7f}' by {
        assert(ordinary(w[i]));
    }
    lemma_ascii_bytes(w);
    assert forall|i: int| 0 <= i < w.len() implies ordinary_byte(#[trigger] text::utf8(w)[i]) by {
        assert(ordinary(w[i]));
        lemma_ordinary_char(w[i]);
    }
}

proof fn lemma_ordinary_char(c: char)
    requires
        ordinary(c),
    ensures
        ordinary_byte(c as u8),
{
}

/// The byte of an ASCII character.
proof fn lemma_char_byte(w: Seq<char>, c: char)
    requires
        is_char(w, c),
        '\0' <= c <= '\u{7f}',
    ensures
        text::utf8(w) == seq![c as u8],
{
    lemma_ascii_bytes(w);
    assert(text::utf8(w) =~= seq![c as u8]);
}

/// Continuation bytes do not matter.
proof fn lemma_continuations(s: Seq<u8>, pos: int)
    requires
        0 <= pos <= s.len(),
    ensures
        pos + peg::continuations(s, pos) <= s.len(),
        forall|i: int|
            pos <= i < pos + peg::continuations(s, pos) ==> peg::is_continuation(#[trigger] s[i]),
        pos + peg::continuations(s, pos) < s.len() ==> !peg::is_continuation(
            s[pos + peg::continuations(s, pos)],
        ),
    decreases s.len() - pos,
{
    if pos < s.len() && peg::is_continuation(s[pos]) {
        lemma_continuations(s, pos + 1);
    }
}

/// Continuation bytes do not end a string literal.
proof fn lemma_string_continuations(s: Seq<u8>, pos: int, n: nat)
    requires
        0 <= pos,
        pos + n <= s.len(),
        forall|i: int| pos <= i < pos + n ==> peg::is_continuation(#[trigger] s[i]),
    ensures
        string_rest(s, pos) == (match string_rest(s, pos + n) {
            Some(m) => Some(n + m),
            None => None,
        }),
    decreases n,
{
    if n > 0 {
        assert(peg::is_continuation(s[pos]));
        lemma_string_continuations(s, pos + 1, (n - 1) as nat);
    }
}

/// A character in a string literal, with the backslash before it if there is one.
spec fn string_char() -> Expr {
    or2(seq2(word("\\"), chr(CharSet::Any)), chr(CharSet::StringChar))
}

/// The number of bytes of a character in a string literal.
spec fn string_char_len(s: Seq<u8>, pos: int) -> Option<nat> {
    if pos + 1 < s.len() && s[pos] == 0x5c {
        Some(2 + peg::continuations(s, pos + 2))
    } else if pos < s.len() && s[pos] != 0x22 && s[pos] != 0x5c && s[pos] != 0x0a {
        Some(1 + peg::continuations(s, pos + 1))
    } else {
        None
    }
}

proof fn lemma_string_char(s: Seq<u8>, pos: nat, trace: Trace, bound: nat)
    requires
        pos <= s.len(),
    ensures
        peg::run(string_char(), s, pos, trace, true, bound) == peg::plain(
            trace,
            string_char_len(s, pos as int),
        ),
        string_char_len(s, pos as int) matches Some(n) ==> n > 0 && pos + n <= s.len() && string_rest(
            s,
            pos as int,
        ) == (match string_rest(s, pos as int + n) {
            Some(m) => Some(n + m),
            None => None,
        }),
        string_char_len(s, pos as int) is None ==> string_rest(s, pos as int) == (if pos < s.len()
            && s[pos as int] == 0x22 {
            Some(1nat)
        } else {
            None
        }),
{
    let p = pos as int;
    reveal_strlit("\\");
    assert("\\"@ =~= seq!['\\']);
    lemma_one_byte("\\", '\\', s, p);
    let first = peg::run(word("\\"), s, pos, trace, true, bound);
    let escaped = seq2(word("\\"), chr(CharSet::Any));
    if p < s.len() {
        lemma_continuations(s, p + 1);
        lemma_string_continuations(s, p + 1, peg::continuations(s, p + 1));
        if p + 1 < s.len() {
            lemma_continuations(s, p + 2);
            lemma_string_continuations(s, p + 2, peg::continuations(s, p + 2));
        }
        if s[p] == 0x5c {
            assert(first == peg::plain(trace, Some(1)));
            let b2 = peg::bound_after(s, pos, 1, bound);
            let second = peg::run(chr(CharSet::Any), s, pos + 1, trace, true, b2);
            assert(second == peg::plain(
                trace,
                if p + 1 < s.len() {
                    Some(1 + peg::continuations(s, p + 2))
                } else {
                    None
                },
            ));
            let o = peg::run(escaped, s, pos, trace, true, bound);
            if p + 1 < s.len() {
                assert(o =~= peg::plain(trace, Some(2 + peg::continuations(s, p + 2))));
            } else {
                assert(o == peg::plain(trace, None));
            }
        }
    }
    if !(p < s.len() && s[p] == 0x5c) {
        assert(first == peg::plain(trace, None));
        assert(peg::run(escaped, s, pos, trace, true, bound) == peg::plain(trace, None));
    }
    let other = peg::run(chr(CharSet::StringChar), s, pos, trace, true, bound);
    assert(other == peg::plain(
        trace,
        if p < s.len() && s[p] != 0x22 && s[p] != 0x5c && s[p] != 0x0a {
            Some(1 + peg::continuations(s, p + 1))
        } else {
            None
        },
    ));
}

/// A word of one byte stands where that byte stands.
pub(crate) proof fn lemma_one_byte(w: &'static str, c: char, s: Seq<u8>, pos: int)
    requires
        0 <= pos,
        w@ == seq![c],
        '\0' <= c <= '\u{7f}',
    ensures
        text::utf8(w@).len() == 1,
        peg::stands_at(text::utf8(w@), s, pos) == (pos < s.len() && s[pos] == c as u8),
{
    lemma_char_byte(w@, c);
    if pos < s.len() {
        assert(s.subrange(pos, pos + 1) =~= seq![s[pos]]);
        assert(s.subrange(pos, pos + 1)[0] == s[pos]);
        assert(seq![c as u8][0] == c as u8);
    }
}

/// The characters of a string literal reach up to its end.
proof fn lemma_string_chars(s: Seq<u8>, pos: nat, trace: Trace, bound: nat)
    requires
        pos <= s.len(),
    ensures
        ({
            let o = peg::more(string_char(), s, pos, trace, true, bound);
            &&& o.hit matches Some(h)
            &&& o =~= peg::plain(trace, Some(h.len))
            &&& pos + h.len <= s.len()
            &&& string_rest(s, pos as int) == (if pos + h.len < s.len() && s[pos as int + h.len]
                == 0x22 {
                Some(h.len + 1)
            } else {
                None
            })
        }),
    decreases s.len() - pos,
{
    reveal_with_fuel(peg::more, 2);
    let b2 = peg::bound_after(s, pos, 0, bound);
    lemma_string_char(s, pos, trace, b2);
    if let Some(n) = string_char_len(s, pos as int) {
        lemma_string_chars(s, pos + n, trace, TOP_RANK as nat);
    }
}

/// A string literal matches from its first quote up to its last.
pub(crate) proof fn lemma_string(s: Seq<u8>, pos: nat, trace: Trace, bound: nat)
    requires
        pos <= s.len(),
    ensures
        peg::run(rule_body(Rule::string_literal), s, pos, trace, true, bound) == peg::plain(
            trace,
            if pos < s.len() && s[pos as int] == 0x22 {
                match string_rest(s, pos as int + 1) {
                    Some(n) => Some(1 + n),
                    None => None,
                }
            } else {
                None
            },
        ),
{
    let p = pos as int;
    let quote = word("\"");
    let body = many(string_char());
    let tail = seq2(body, quote);
    assert(rule_body(Rule::string_literal) == seq2(quote, tail));
    reveal_strlit("\"");
    assert("\""@ =~= seq!['"']);
    lemma_one_byte("\"", '"', s, p);
    let first = peg::run(quote, s, pos, trace, true, bound);
    if p < s.len() && s[p] == 0x22 {
        assert(first == peg::plain(trace, Some(1)));
        let b2 = peg::bound_after(s, pos, 1, bound);
        lemma_string_many(s, pos + 1, trace, b2);
        let inner = peg::run(body, s, pos + 1, trace, true, b2);
        let n = inner.hit->0.len;
        let b3 = peg::bound_after(s, pos + 1, n, b2);
        lemma_one_byte("\"", '"', s, p + 1 + n);
        let last = peg::run(quote, s, pos + 1 + n, trace, true, b3);
        let ends = p + 1 + n < s.len() && s[p + 1 + n] == 0x22;
        assert(last == peg::plain(
            trace,
            if ends {
                Some(1)
            } else {
                None
            },
        ));
        let o = peg::run(tail, s, pos + 1, trace, true, b2);
        if ends {
            assert(o =~= peg::plain(trace, Some(n + 1)));
        } else {
            assert(o == peg::plain(trace, None));
        }
    } else {
        assert(first == peg::plain(trace, None));
    }
    let all = peg::run(rule_body(Rule::string_literal), s, pos, trace, true, bound);
    assert(all == peg::run(seq2(quote, tail), s, pos, trace, true, bound));
    assert(all =~= peg::plain(
        trace,
        if p < s.len() && s[p] == 0x22 {
            match string_rest(s, p + 1) {
                Some(n) => Some(1 + n),
                None => None,
            }
        } else {
            None
        },
    ));
}

proof fn lemma_string_many(s: Seq<u8>, pos: nat, trace: Trace, bound: nat)
    requires
        pos <= s.len(),
    ensures
        ({
            let o = peg::run(many(string_char()), s, pos, trace, true, bound);
            &&& o.hit matches Some(h)
            &&& o =~= peg::plain(trace, Some(h.len))
            &&& pos + h.len <= s.len()
            &&& string_rest(s, pos as int) == (if pos + h.len < s.len() && s[pos as int + h.len]
                == 0x22 {
                Some(h.len + 1)
            } else {
                None
            })
        }),
{
    lemma_string_char(s, pos, trace, bound);
    if let Some(n) = string_char_len(s, pos as int) {
        lemma_string_chars(s, pos + n, trace, TOP_RANK as nat);
    }
}

/// A match of an expression without an expression inside it goes along with the end of the
/// statement.
proof fn lemma_plain_goes_along(
    e: Expr,
    s: Seq<u8>,
    pos: nat,
    trace: Trace,
    atomic: bool,
    bound: nat,
    depth: int,
)
    requires
        pos <= s.len(),
        stays(e, depth),
        e is Word || e is Keyword || e is Char,
    ensures
        peg::run(e, s, pos, trace, atomic, bound).hit matches Some(h) ==> statement_end(
            s,
            pos as int,
            depth,
        ) == statement_end(s, (pos + h.len) as int, depth + net(e)),
{
    let p = pos as int;
    if let Some(h) = peg::run(e, s, pos, trace, atomic, bound).hit {
        match e {
            Expr::Word(w) => {
                let b = text::utf8(w@);
                assert forall|i: int| p <= i < p + b.len() implies #[trigger] s[i] == b[i - p] by {
                    assert(s.subrange(p, p + b.len())[i - p] == s[i]);
                }
                if all_ordinary(w@) {
                    assert(!is_char(w@, '{') && !is_char(w@, '}')) by {
                        assert(ordinary(w@[0]));
                    }
                    lemma_ordinary_bytes(w@);
                    lemma_over_ordinary(s, p, b.len(), depth);
                } else {
                    lemma_char_byte(w@, w@[0]);
                    assert(b[0] == w@[0] as u8);
                    assert(s[p] == b[p - p]);
                }
            },
            Expr::Keyword(w) => {
                let b = text::utf8(w@);
                lemma_ordinary_bytes(w@);
                assert forall|i: int| p <= i < p + b.len() implies ordinary_byte(
                    #[trigger] s[i],
                ) by {
                    assert(s.subrange(p, p + b.len())[i - p] == s[i]);
                    assert(ordinary_byte(b[i - p]));
                }
                lemma_over_ordinary(s, p, b.len(), depth);
            },
            Expr::Char(set) => {
                lemma_continuations(s, p + 1);
                lemma_over_ordinary(s, p, h.len, depth);
            },
            _ => {},
        }
    }
}

/// A match goes along with the end of the statement.
proof fn lemma_goes_along(
    e: Expr,
    s: Seq<u8>,
    pos: nat,
    trace: Trace,
    atomic: bool,
    bound: nat,
    depth: int,
)
    requires
        pos <= s.len(),
        stays(e, depth),
    ensures
        peg::run(e, s, pos, trace, atomic, bound).hit matches Some(h) ==> statement_end(
            s,
            pos as int,
            depth,
        ) == statement_end(s, (pos + h.len) as int, depth + net(e)),
    decreases peg::left(s, pos), bound, e, 1nat,
{
    match e {
        Expr::Rule(r) => lemma_rule_goes_along(r, s, pos, trace, atomic, bound, depth),
        Expr::Cat(a, b) => lemma_cat_goes_along(*a, *b, s, pos, trace, atomic, bound, depth),
        Expr::Or(a, b) => {
            lemma_goes_along(*a, s, pos, trace, atomic, bound, depth);
            let o1 = peg::run(*a, s, pos, trace, atomic, bound);
            lemma_goes_along(*b, s, pos, o1.trace, atomic, bound, depth);
        },
        Expr::Opt(a) => lemma_goes_along(*a, s, pos, trace, atomic, bound, depth),
        Expr::Many(a) => lemma_many_goes_along(*a, s, pos, trace, atomic, bound, depth),
        _ => lemma_plain_goes_along(e, s, pos, trace, atomic, bound, depth),
    }
}

proof fn lemma_rule_goes_along(
    r: Rule,
    s: Seq<u8>,
    pos: nat,
    trace: Trace,
    atomic: bool,
    bound: nat,
    depth: int,
)
    requires
        pos <= s.len(),
        rule_stays(r, depth),
    ensures
        peg::run(Expr::Rule(r), s, pos, trace, atomic, bound).hit matches Some(h) ==> statement_end(
            s,
            pos as int,
            depth,
        ) == statement_end(s, (pos + h.len) as int, depth + net(Expr::Rule(r))),
    decreases peg::left(s, pos), bound, Expr::Rule(r), 0nat,
{
    if (rank(r) as nat) < bound {
        let atomic2 = atomic || is_atomic(r);
        if r == Rule::string_literal {
            lemma_string(s, pos, trace, rank(r) as nat);
        } else {
            lemma_body_stays(r, depth);
            lemma_goes_along(rule_body(r), s, pos, trace, atomic2, rank(r) as nat, depth);
        }
    }
}

proof fn lemma_cat_goes_along(
    a: Expr,
    b: Expr,
    s: Seq<u8>,
    pos: nat,
    trace: Trace,
    atomic: bool,
    bound: nat,
    depth: int,
)
    requires
        pos <= s.len(),
        stays(Expr::Cat(Box::new(a), Box::new(b)), depth),
    ensures
        peg::run(Expr::Cat(Box::new(a), Box::new(b)), s, pos, trace, atomic, bound).hit matches Some(h) ==> statement_end(
            s,
            pos as int,
            depth,
        ) == statement_end(s, (pos + h.len) as int, depth + net(Expr::Cat(Box::new(a), Box::new(b)))),
    decreases peg::left(s, pos), bound, Expr::Cat(Box::new(a), Box::new(b)), 0nat,
{
    lemma_goes_along(a, s, pos, trace, atomic, bound, depth);
    ranks::lemma_run_fits(a, s, pos, trace, atomic, bound);
    let o1 = peg::run(a, s, pos, trace, atomic, bound);
    if let Some(h1) = o1.hit {
        peg::lemma_blanks_fit(s, (pos + h1.len) as int);
        lemma_over_blanks(s, (pos + h1.len) as int, depth + net(a));
        let n = h1.len + peg::gap(s, pos + h1.len, atomic);
        let bound2 = peg::bound_after(s, pos, n, bound);
        lemma_goes_along(b, s, pos + n, o1.trace, atomic, bound2, depth + net(a));
    }
}

proof fn lemma_many_goes_along(
    a: Expr,
    s: Seq<u8>,
    pos: nat,
    trace: Trace,
    atomic: bool,
    bound: nat,
    depth: int,
)
    requires
        pos <= s.len(),
        stays(a, depth),
        net(a) == 0,
    ensures
        peg::run(Expr::Many(Box::new(a)), s, pos, trace, atomic, bound).hit matches Some(h)
            ==> statement_end(s, pos as int, depth) == statement_end(
            s,
            (pos + h.len) as int,
            depth,
        ),
    decreases peg::left(s, pos), bound, Expr::Many(Box::new(a)), 0nat,
{
    lemma_goes_along(a, s, pos, trace, atomic, bound, depth);
    ranks::lemma_run_fits(a, s, pos, trace, atomic, bound);
    let o1 = peg::run(a, s, pos, trace, atomic, bound);
    if let Some(h1) = o1.hit {
        if h1.len > 0 && pos < s.len() {
            lemma_more_goes_along(a, s, pos + h1.len, o1.trace, atomic, TOP_RANK as nat, depth);
        }
    }
}

proof fn lemma_more_goes_along(
    e: Expr,
    s: Seq<u8>,
    pos: nat,
    trace: Trace,
    atomic: bool,
    bound: nat,
    depth: int,
)
    requires
        pos <= s.len(),
        stays(e, depth),
        net(e) == 0,
    ensures
        peg::more(e, s, pos, trace, atomic, bound).hit matches Some(h) && statement_end(
            s,
            pos as int,
            depth,
        ) == statement_end(s, (pos + h.len) as int, depth),
    decreases peg::left(s, pos), bound, e, 2nat,
{
    peg::lemma_blanks_fit(s, pos as int);
    lemma_over_blanks(s, pos as int, depth);
    let g = peg::gap(s, pos, atomic);
    let bound2 = peg::bound_after(s, pos, g, bound);
    lemma_goes_along(e, s, pos + g, trace, atomic, bound2, depth);
    ranks::lemma_run_fits(e, s, pos + g, trace, atomic, bound2);
    let o1 = peg::run(e, s, pos + g, trace, atomic, bound2);
    if let Some(h1) = o1.hit {
        if g + h1.len > 0 && pos < s.len() {
            lemma_more_goes_along(e, s, pos + g + h1.len, o1.trace, atomic, TOP_RANK as nat, depth);
        }
    }
}

/// A match of a whole statement ends where the statement ends.
pub(crate) proof fn lemma_reaches_end(
    e: Expr,
    s: Seq<u8>,
    pos: nat,
    trace: Trace,
    atomic: bool,
    bound: nat,
    depth: int,
)
    requires
        pos <= s.len(),
        closes(e, depth),
    ensures
        peg::run(e, s, pos, trace, atomic, bound).hit matches Some(h) ==> statement_end(
            s,
            pos as int,
            depth,
        ) == Some((pos + h.len) as int),
    decreases peg::left(s, pos), bound, e,
{
    match e {
        Expr::Word(w) => {
            lemma_char_byte(w@, ';');
            if peg::run(e, s, pos, trace, atomic, bound).hit is Some {
                assert(s.subrange(pos as int, pos as int + 1)[0] == s[pos as int]);
            }
        },
        Expr::Rule(r) => {
            if (rank(r) as nat) < bound {
                lemma_body_stays(r, 0);
                let atomic2 = atomic || is_atomic(r);
                lemma_reaches_end(rule_body(r), s, pos, trace, atomic2, rank(r) as nat, depth);
            }
        },
        Expr::Cat(a, b) => {
            lemma_goes_along(*a, s, pos, trace, atomic, bound, depth);
            ranks::lemma_run_fits(*a, s, pos, trace, atomic, bound);
            let o1 = peg::run(*a, s, pos, trace, atomic, bound);
            if let Some(h1) = o1.hit {
                peg::lemma_blanks_fit(s, (pos + h1.len) as int);
                lemma_over_blanks(s, (pos + h1.len) as int, depth + net(*a));
                let n = h1.len + peg::gap(s, pos + h1.len, atomic);
                let bound2 = peg::bound_after(s, pos, n, bound);
                lemma_reaches_end(*b, s, pos + n, o1.trace, atomic, bound2, depth + net(*a));
            }
        },
        Expr::Or(a, b) => {
            lemma_reaches_end(*a, s, pos, trace, atomic, bound, depth);
            let o1 = peg::run(*a, s, pos, trace, atomic, bound);
            lemma_reaches_end(*b, s, pos, o1.trace, atomic, bound, depth);
        },
        _ => {},
    }
}

/// Whether two texts are the same up to `end`.
pub open spec fn agree(s: Seq<u8>, t: Seq<u8>, end: int) -> bool {
    &&& end <= s.len()
    &&& end <= t.len()
    &&& forall|i: int| 0 <= i < end ==> #[trigger] s[i] == t[i]
}

proof fn lemma_line_local(s: Seq<u8>, t: Seq<u8>, pos: int, end: int)
    requires
        agree(s, t, end),
        0 <= pos,
        pos + peg::line_rest(s, pos) < end,
    ensures
        peg::line_rest(t, pos) == peg::line_rest(s, pos),
    decreases end - pos,
{
    if s[pos] != 0x0a {
        lemma_line_local(s, t, pos + 1, end);
    }
}

pub(crate) proof fn lemma_comment_local(s: Seq<u8>, t: Seq<u8>, pos: int, end: int)
    requires
        agree(s, t, end),
        0 <= pos,
        peg::comment_rest(s, pos) matches Some(n) && pos + n <= end,
    ensures
        peg::comment_rest(t, pos) == peg::comment_rest(s, pos),
    decreases end - pos,
{
    if !(s[pos] == 0x2a && s[pos + 1] == 0x2f) {
        lemma_comment_local(s, t, pos + 1, end);
    }
}

proof fn lemma_string_local(s: Seq<u8>, t: Seq<u8>, pos: int, end: int)
    requires
        agree(s, t, end),
        0 <= pos,
        string_rest(s, pos) matches Some(n) && pos + n <= end,
    ensures
        string_rest(t, pos) == string_rest(s, pos),
    decreases end - pos,
{
    if s[pos] == 0x5c {
        lemma_string_local(s, t, pos + 2, end);
    } else if s[pos] != 0x22 {
        lemma_string_local(s, t, pos + 1, end);
    }
}

/// A blank before the end of the statement is the same.
proof fn lemma_blank_local(s: Seq<u8>, t: Seq<u8>, pos: int, end: int, depth: int)
    requires
        agree(s, t, end),
        statement_end(s, pos, depth) == Some(end),
    ensures
        peg::blank(t, pos) == peg::blank(s, pos),
{
    lemma_end(s, pos, depth);
    let n = peg::blank(s, pos);
    lemma_end(s, pos + n, depth);
    if s[pos] == 0x2f {
        assert(pos + 1 < end);
        if s[pos + 1] == 0x2f {
            lemma_line_local(s, t, pos + 2, end);
        } else if s[pos + 1] == 0x2a {
            assert(peg::comment_rest(s, pos + 2) is Some);
            lemma_comment_local(s, t, pos + 2, end);
        }
    }
}

/// Blanks before the end of the statement are the same.
pub(crate) proof fn lemma_blanks_local(s: Seq<u8>, t: Seq<u8>, pos: int, end: int, depth: int)
    requires
        agree(s, t, end),
        statement_end(s, pos, depth) == Some(end),
    ensures
        peg::blanks(t, pos) == peg::blanks(s, pos),
    decreases s.len() - pos,
{
    lemma_end(s, pos, depth);
    lemma_blank_local(s, t, pos, end, depth);
    peg::lemma_blank_fits(s, pos);
    let n = peg::blank(s, pos);
    if n > 0 {
        lemma_blanks_local(s, t, pos + n, end, depth);
    }
}

/// A word stands before the end of the statement in both texts or in none, and in full.
proof fn lemma_word_local(w: Seq<u8>, s: Seq<u8>, t: Seq<u8>, pos: int, end: int)
    requires
        agree(s, t, end),
        0 <= pos < end,
        s[end - 1] == 0x3b,
        w.len() == 1 || forall|i: int| 0 <= i < w.len() ==> #[trigger] w[i] != 0x3b,
    ensures
        peg::stands_at(w, s, pos) == peg::stands_at(w, t, pos),
        peg::stands_at(w, s, pos) ==> pos + w.len() <= end,
        peg::stands_at(w, s, pos) && (forall|i: int| 0 <= i < w.len() ==> #[trigger] w[i] != 0x3b)
            ==> pos + w.len() < end,
{
    if pos + w.len() <= end {
        assert(s.subrange(pos, pos + w.len()) =~= t.subrange(pos, pos + w.len()));
        if pos + w.len() == end && w.len() > 0 {
            assert(s.subrange(pos, pos + w.len())[w.len() - 1] == s[end - 1]);
        }
    } else {
        let i = end - 1 - pos;
        if pos + w.len() <= s.len() {
            assert(s.subrange(pos, pos + w.len())[i] == s[end - 1]);
            assert(w[i] != 0x3b);
        }
        if pos + w.len() <= t.len() {
            assert(t.subrange(pos, pos + w.len())[i] == t[end - 1]);
            assert(w[i] != 0x3b);
        }
    }
}

/// The bytes of a word that stays before the end of the statement.
proof fn lemma_word_bytes(w: Seq<char>)
    requires
        w.len() > 0,
        all_ordinary(w) || is_char(w, '{') || is_char(w, '}') || is_char(w, ';'),
    ensures
        text::utf8(w).len() == 1 || forall|i: int|
            0 <= i < text::utf8(w).len() ==> #[trigger] text::utf8(w)[i] != 0x3b,
        all_ordinary(w) ==> forall|i: int|
            0 <= i < text::utf8(w).len() ==> #[trigger] text::utf8(w)[i] != 0x3b,
{
    if all_ordinary(w) {
        lemma_ordinary_bytes(w);
    } else {
        lemma_char_byte(w, w[0]);
    }
}

proof fn lemma_continuations_local(s: Seq<u8>, t: Seq<u8>, pos: int, end: int)
    requires
        agree(s, t, end),
        0 <= pos < end,
        s[end - 1] == 0x3b,
    ensures
        peg::continuations(t, pos) == peg::continuations(s, pos),
    decreases end - pos,
{
    if peg::is_continuation(s[pos]) {
        lemma_continuations_local(s, t, pos + 1, end);
    }
}

proof fn lemma_plain_local(
    e: Expr,
    s: Seq<u8>,
    t: Seq<u8>,
    pos: nat,
    end: int,
    traces: (Trace, Trace),
    atomic: bool,
    bound: nat,
    depth: int,
)
    requires
        agree(s, t, end),
        statement_end(s, pos as int, depth) == Some(end),
        stays(e, depth) || closes(e, depth),
        e is Word || e is Keyword || e is Char,
    ensures
        peg::run(e, s, pos, traces.0, atomic, bound).hit == peg::run(
            e,
            t,
            pos,
            traces.1,
            atomic,
            bound,
        ).hit,
{
    let p = pos as int;
    lemma_end(s, p, depth);
    match e {
        Expr::Word(w) => {
            lemma_word_bytes(w@);
            lemma_word_local(text::utf8(w@), s, t, p, end);
        },
        Expr::Keyword(w) => {
            lemma_word_bytes(w@);
            lemma_word_local(text::utf8(w@), s, t, p, end);
        },
        Expr::Char(set) => {
            if p + 1 < end {
                lemma_continuations_local(s, t, p + 1, end);
            }
        },
        _ => {},
    }
}

/// What an expression that stays before the end of the statement matches does not depend on
/// what stands behind that end.
proof fn lemma_local(
    e: Expr,
    s: Seq<u8>,
    t: Seq<u8>,
    pos: nat,
    end: int,
    traces: (Trace, Trace),
    atomic: bool,
    bound: nat,
    depth: int,
)
    requires
        agree(s, t, end),
        statement_end(s, pos as int, depth) == Some(end),
        stays(e, depth),
    ensures
        peg::run(e, s, pos, traces.0, atomic, bound).hit == peg::run(
            e,
            t,
            pos,
            traces.1,
            atomic,
            bound,
        ).hit,
    decreases peg::left(s, pos), bound, e, 1nat,
{
    match e {
        Expr::Rule(r) => lemma_rule_local(r, s, t, pos, end, traces, atomic, bound, depth),
        Expr::Cat(a, b) => lemma_cat_local(*a, *b, s, t, pos, end, traces, atomic, bound, depth),
        Expr::Or(a, b) => {
            lemma_local(*a, s, t, pos, end, traces, atomic, bound, depth);
            let o1 = peg::run(*a, s, pos, traces.0, atomic, bound);
            let o2 = peg::run(*a, t, pos, traces.1, atomic, bound);
            lemma_local(*b, s, t, pos, end, (o1.trace, o2.trace), atomic, bound, depth);
        },
        Expr::Opt(a) => lemma_local(*a, s, t, pos, end, traces, atomic, bound, depth),
        Expr::Many(a) => lemma_many_local(*a, s, t, pos, end, traces, atomic, bound, depth),
        _ => lemma_plain_local(e, s, t, pos, end, traces, atomic, bound, depth),
    }
}

proof fn lemma_rule_local(
    r: Rule,
    s: Seq<u8>,
    t: Seq<u8>,
    pos: nat,
    end: int,
    traces: (Trace, Trace),
    atomic: bool,
    bound: nat,
    depth: int,
)
    requires
        agree(s, t, end),
        statement_end(s, pos as int, depth) == Some(end),
        rule_stays(r, depth),
    ensures
        peg::run(Expr::Rule(r), s, pos, traces.0, atomic, bound).hit == peg::run(
            Expr::Rule(r),
            t,
            pos,
            traces.1,
            atomic,
            bound,
        ).hit,
    decreases peg::left(s, pos), bound, Expr::Rule(r), 0nat,
{
    if (rank(r) as nat) < bound {
        let atomic2 = atomic || is_atomic(r);
        let b2 = rank(r) as nat;
        if r == Rule::string_literal {
            let p = pos as int;
            lemma_end(s, p, depth);
            lemma_string(s, pos, traces.0, b2);
            lemma_string(t, pos, traces.1, b2);
            if s[p] == 0x22 {
                let n = string_rest(s, p + 1)->0;
                lemma_end(s, p + 1 + n, depth);
                lemma_string_local(s, t, p + 1, end);
            }
        } else {
            lemma_body_stays(r, depth);
            lemma_local(rule_body(r), s, t, pos, end, traces, atomic2, b2, depth);
        }
    }
}

proof fn lemma_cat_local(
    a: Expr,
    b: Expr,
    s: Seq<u8>,
    t: Seq<u8>,
    pos: nat,
    end: int,
    traces: (Trace, Trace),
    atomic: bool,
    bound: nat,
    depth: int,
)
    requires
        agree(s, t, end),
        statement_end(s, pos as int, depth) == Some(end),
        stays(Expr::Cat(Box::new(a), Box::new(b)), depth),
    ensures
        peg::run(Expr::Cat(Box::new(a), Box::new(b)), s, pos, traces.0, atomic, bound).hit == peg::run(
            Expr::Cat(Box::new(a), Box::new(b)),
            t,
            pos,
            traces.1,
            atomic,
            bound,
        ).hit,
    decreases peg::left(s, pos), bound, Expr::Cat(Box::new(a), Box::new(b)), 0nat,
{
    lemma_end(s, pos as int, depth);
    lemma_local(a, s, t, pos, end, traces, atomic, bound, depth);
    let o1 = peg::run(a, s, pos, traces.0, atomic, bound);
    let o2 = peg::run(a, t, pos, traces.1, atomic, bound);
    if let Some(h1) = o1.hit {
        let next = pos + h1.len;
        let d2 = depth + net(a);
        lemma_goes_along(a, s, pos, traces.0, atomic, bound, depth);
        lemma_end(s, next as int, d2);
        lemma_blanks_local(s, t, next as int, end, d2);
        peg::lemma_blanks_fit(s, next as int);
        lemma_over_blanks(s, next as int, d2);
        let n = h1.len + peg::gap(s, next, atomic);
        let b2 = peg::bound_after(s, pos, n, bound);
        lemma_local(b, s, t, pos + n, end, (o1.trace, o2.trace), atomic, b2, d2);
    }
}

proof fn lemma_many_local(
    a: Expr,
    s: Seq<u8>,
    t: Seq<u8>,
    pos: nat,
    end: int,
    traces: (Trace, Trace),
    atomic: bool,
    bound: nat,
    depth: int,
)
    requires
        agree(s, t, end),
        statement_end(s, pos as int, depth) == Some(end),
        stays(a, depth),
        net(a) == 0,
    ensures
        peg::run(Expr::Many(Box::new(a)), s, pos, traces.0, atomic, bound).hit == peg::run(
            Expr::Many(Box::new(a)),
            t,
            pos,
            traces.1,
            atomic,
            bound,
        ).hit,
    decreases peg::left(s, pos), bound, Expr::Many(Box::new(a)), 0nat,
{
    lemma_end(s, pos as int, depth);
    lemma_local(a, s, t, pos, end, traces, atomic, bound, depth);
    let o1 = peg::run(a, s, pos, traces.0, atomic, bound);
    let o2 = peg::run(a, t, pos, traces.1, atomic, bound);
    if let Some(h1) = o1.hit {
        lemma_goes_along(a, s, pos, traces.0, atomic, bound, depth);
        if h1.len > 0 {
            lemma_more_local(
                a,
                s,
                t,
                pos + h1.len,
                end,
                (o1.trace, o2.trace),
                atomic,
                TOP_RANK as nat,
                depth,
            );
        }
    }
}

proof fn lemma_more_local(
    e: Expr,
    s: Seq<u8>,
    t: Seq<u8>,
    pos: nat,
    end: int,
    traces: (Trace, Trace),
    atomic: bool,
    bound: nat,
    depth: int,
)
    requires
        agree(s, t, end),
        statement_end(s, pos as int, depth) == Some(end),
        stays(e, depth),
        net(e) == 0,
    ensures
        peg::more(e, s, pos, traces.0, atomic, bound).hit == peg::more(
            e,
            t,
            pos,
            traces.1,
            atomic,
            bound,
        ).hit,
    decreases peg::left(s, pos), bound, e, 2nat,
{
    lemma_end(s, pos as int, depth);
    lemma_blanks_local(s, t, pos as int, end, depth);
    peg::lemma_blanks_fit(s, pos as int);
    lemma_over_blanks(s, pos as int, depth);
    let g = peg::gap(s, pos, atomic);
    let b2 = peg::bound_after(s, pos, g, bound);
    lemma_local(e, s, t, pos + g, end, traces, atomic, b2, depth);
    let o1 = peg::run(e, s, pos + g, traces.0, atomic, b2);
    let o2 = peg::run(e, t, pos + g, traces.1, atomic, b2);
    if let Some(h1) = o1.hit {
        lemma_goes_along(e, s, pos + g, traces.0, atomic, b2, depth);
        if g + h1.len > 0 {
            lemma_more_local(
                e,
                s,
                t,
                pos + g + h1.len,
                end,
                (o1.trace, o2.trace),
                atomic,
                TOP_RANK as nat,
                depth,
            );
        }
    }
}

/// What a whole statement matches does not depend on what stands behind its end.
pub(crate) proof fn lemma_statement_local(
    e: Expr,
    s: Seq<u8>,
    t: Seq<u8>,
    pos: nat,
    end: int,
    traces: (Trace, Trace),
    atomic: bool,
    bound: nat,
    depth: int,
)
    requires
        agree(s, t, end),
        statement_end(s, pos as int, depth) == Some(end),
        closes(e, depth),
    ensures
        peg::run(e, s, pos, traces.0, atomic, bound).hit == peg::run(
            e,
            t,
            pos,
            traces.1,
            atomic,
            bound,
        ).hit,
    decreases peg::left(s, pos), bound, e,
{
    lemma_end(s, pos as int, depth);
    match e {
        Expr::Rule(r) => {
            if (rank(r) as nat) < bound {
                let atomic2 = atomic || is_atomic(r);
                lemma_body_stays(r, 0);
                lemma_statement_local(
                    rule_body(r),
                    s,
                    t,
                    pos,
                    end,
                    traces,
                    atomic2,
                    rank(r) as nat,
                    depth,
                );
            }
        },
        Expr::Cat(a, b) => {
            lemma_local(*a, s, t, pos, end, traces, atomic, bound, depth);
            let o1 = peg::run(*a, s, pos, traces.0, atomic, bound);
            let o2 = peg::run(*a, t, pos, traces.1, atomic, bound);
            if let Some(h1) = o1.hit {
                let next = pos + h1.len;
                let d2 = depth + net(*a);
                lemma_goes_along(*a, s, pos, traces.0, atomic, bound, depth);
                lemma_end(s, next as int, d2);
                lemma_blanks_local(s, t, next as int, end, d2);
                peg::lemma_blanks_fit(s, next as int);
                lemma_over_blanks(s, next as int, d2);
                let n = h1.len + peg::gap(s, next, atomic);
                let b2 = peg::bound_after(s, pos, n, bound);
                lemma_statement_local(
                    *b,
                    s,
                    t,
                    pos + n,
                    end,
                    (o1.trace, o2.trace),
                    atomic,
                    b2,
                    d2,
                );
            }
        },
        Expr::Or(a, b) => {
            lemma_statement_local(*a, s, t, pos, end, traces, atomic, bound, depth);
            let o1 = peg::run(*a, s, pos, traces.0, atomic, bound);
            let o2 = peg::run(*a, t, pos, traces.1, atomic, bound);
            lemma_statement_local(
                *b,
                s,
                t,
                pos,
                end,
                (o1.trace, o2.trace),
                atomic,
                bound,
                depth,
            );
        },
        Expr::Word(_) => lemma_plain_local(e, s, t, pos, end, traces, atomic, bound, depth),
        _ => {},
    }
}

} // verus!
