//! What the smallest parts of a text are: white space, comments, lines and characters.
use vstd::prelude::*;

use crate::grammar::CharSet;
use crate::peg;
use crate::text;

verus! {

/// Whether `*/` stands at `pos`.
pub open spec fn ends_comment(s: Seq<u8>, pos: int) -> bool {
    0 <= pos && pos + 2 <= s.len() && s[pos] == 0x2a && s[pos + 1] == 0x2f
}

/// A block comment goes up to and with the first `*/` from its opening on, whatever stands in
/// between, and is none where there is no `*/`.
pub proof fn comment_ends_at_the_first_mark(s: Seq<u8>, pos: int)
    requires
        0 <= pos,
    ensures
        match peg::comment_rest(s, pos) {
            Some(n) => {
                &&& n >= 2
                &&& ends_comment(s, pos + n - 2)
                &&& forall|k: int| pos <= k < pos + n - 2 ==> !#[trigger] ends_comment(s, k)
            },
            None => forall|k: int| pos <= k ==> !#[trigger] ends_comment(s, k),
        },
    decreases s.len() - pos,
{
    if pos + 2 <= s.len() && !ends_comment(s, pos) {
        comment_ends_at_the_first_mark(s, pos + 1);
    }
}

/// A block comment is one blank: `/*`, any bytes in which `*/` does not occur, and `*/`,
/// wherever they stand.
pub proof fn block_comment_is_blank(before: Seq<u8>, c: Seq<u8>, after: Seq<u8>)
    requires
        forall|k: int| !#[trigger] ends_comment(c, k),
    ensures
        peg::blank(
            before + seq![0x2fu8, 0x2au8] + c + seq![0x2au8, 0x2fu8] + after,
            before.len() as int,
        ) == c.len() + 4,
{
    let s = before + seq![0x2fu8, 0x2au8] + c + seq![0x2au8, 0x2fu8] + after;
    let p = before.len() as int;
    let q = p + 2;
    let e = q + c.len();
    assert(s[p] == 0x2f && s[p + 1] == 0x2a);
    assert(s[e] == 0x2a && s[e + 1] == 0x2f);
    assert(ends_comment(s, e));
    assert forall|k: int| q <= k < e implies !#[trigger] ends_comment(s, k) by {
        assert(s[k] == c[k - q]);
        if k + 1 < e {
            assert(s[k + 1] == c[k + 1 - q]);
            assert(!ends_comment(c, k - q));
        } else {
            assert(s[k + 1] == 0x2a);
        }
    }
    comment_ends_at_the_first_mark(s, q);
    match peg::comment_rest(s, q) {
        Some(n) => {
            if q + n - 2 < e {
                assert(!ends_comment(s, q + n - 2));
            }
            if q + n - 2 > e {
                assert(!ends_comment(s, e));
            }
        },
        None => {
            assert(!ends_comment(s, e));
        },
    }
}

/// A line goes up to the first line feed, or up to the end of the text.
pub proof fn line_ends_at_the_first_line_feed(s: Seq<u8>, pos: int)
    requires
        0 <= pos <= s.len(),
    ensures
        pos + peg::line_rest(s, pos) <= s.len(),
        forall|k: int| pos <= k < pos + peg::line_rest(s, pos) ==> #[trigger] s[k] != 0x0a,
        pos + peg::line_rest(s, pos) < s.len() ==> s[pos + peg::line_rest(s, pos)] == 0x0a,
    decreases s.len() - pos,
{
    if pos < s.len() && s[pos] != 0x0a {
        line_ends_at_the_first_line_feed(s, pos + 1);
    }
}

/// Two slashes and all that follows them on the line are one blank.
pub proof fn line_comment_is_blank(before: Seq<u8>, c: Seq<u8>, after: Seq<u8>)
    requires
        forall|k: int| 0 <= k < c.len() ==> #[trigger] c[k] != 0x0a,
        after.len() > 0 ==> after[0] == 0x0a,
    ensures
        peg::blank(before + seq![0x2fu8, 0x2fu8] + c + after, before.len() as int) == c.len() + 2,
{
    let s = before + seq![0x2fu8, 0x2fu8] + c + after;
    let p = before.len() as int;
    let q = p + 2;
    let e = q + c.len();
    assert(s[p] == 0x2f && s[p + 1] == 0x2f);
    assert forall|k: int| q <= k < e implies #[trigger] s[k] != 0x0a by {
        assert(s[k] == c[k - q]);
    }
    if after.len() > 0 {
        assert(s[e] == after[0]);
    }
    line_ends_at_the_first_line_feed(s, q);
}

/// The bytes of white space: the space, the tab, the carriage return and the line feed.
pub open spec fn is_white_byte(b: u8) -> bool {
    text::utf8(" \t\r\n"@).contains(b)
}

proof fn lemma_ascii_listed(w: Seq<char>)
    requires
        vstd::utf8::is_ascii_chars(w),
    ensures
        text::utf8(w).len() == w.len(),
        forall|i: int| 0 <= i < w.len() ==> #[trigger] text::utf8(w)[i] == w[i] as u8,
{
    vstd::utf8::is_ascii_chars_encode_utf8(w);
}

proof fn lemma_white_bytes(b: u8)
    ensures
        is_white_byte(b) <==> b == 0x20 || b == 0x09 || b == 0x0d || b == 0x0a,
{
    let w = " \t\r\n"@;
    reveal_strlit(" \t\r\n");
    assert(vstd::utf8::is_ascii_chars(w));
    lemma_ascii_listed(w);
    let u = text::utf8(w);
    assert(u[0] == 0x20 && u[1] == 0x09 && u[2] == 0x0d && u[3] == 0x0a);
    assert(u.len() == 4);
}

/// What is blank at a place: a byte of white space, or a comment of one of the two forms, or
/// nothing.
pub proof fn blank_is_white_space_or_a_comment(s: Seq<u8>, pos: int)
    requires
        0 <= pos < s.len(),
    ensures
        is_white_byte(s[pos]) ==> peg::blank(s, pos) == 1,
        peg::blank(s, pos) > 0 && !is_white_byte(s[pos]) ==> {
            &&& pos + peg::blank(s, pos) <= s.len()
            &&& s[pos] == 0x2f
            &&& s[pos + 1] == 0x2f || (s[pos + 1] == 0x2a && peg::blank(s, pos) >= 4
                && ends_comment(s, pos + peg::blank(s, pos) - 2))
        },
{
    lemma_white_bytes(s[pos]);
    peg::lemma_blank_fits(s, pos);
    if pos + 2 <= s.len() {
        comment_ends_at_the_first_mark(s, pos + 2);
    }
}

/// Whether the bytes of `s` from `pos` on are `n` bytes of white space and whole comments, one
/// behind the other.
pub open spec fn all_blank(s: Seq<u8>, pos: int, n: nat) -> bool
    decreases n,
{
    n == 0 || (0 < peg::blank(s, pos) <= n && all_blank(
        s,
        pos + peg::blank(s, pos),
        (n - peg::blank(s, pos)) as nat,
    ))
}

/// Between two parts of a text all white space and all comments are skipped, and nothing else.
pub proof fn all_blanks_are_skipped(s: Seq<u8>, pos: int)
    requires
        0 <= pos <= s.len(),
    ensures
        pos + peg::blanks(s, pos) <= s.len(),
        all_blank(s, pos, peg::blanks(s, pos)),
        peg::blank(s, pos + peg::blanks(s, pos)) == 0,
    decreases s.len() - pos,
{
    peg::lemma_blanks_fit(s, pos);
    peg::lemma_blank_fits(s, pos);
    if pos < s.len() && peg::blank(s, pos) > 0 {
        all_blanks_are_skipped(s, pos + peg::blank(s, pos));
    }
}

/// White space in front of other blanks only adds to them.
pub proof fn white_space_adds_up(s: Seq<u8>, pos: int)
    requires
        0 <= pos < s.len(),
        is_white_byte(s[pos]),
    ensures
        peg::blanks(s, pos) == 1 + peg::blanks(s, pos + 1),
{
    lemma_white_bytes(s[pos]);
}

/// Digits.
pub open spec fn digits() -> Seq<char> {
    "0123456789"@
}

/// The letters `a` to `f` in both cases.
pub open spec fn hex_letters() -> Seq<char> {
    "abcdefABCDEF"@
}

/// The letters of ASCII in both cases.
pub open spec fn letters() -> Seq<char> {
    "abcdefghijklmnopqrstuvwxyzABCDEFGHIJKLMNOPQRSTUVWXYZ"@
}

/// Whether `b` is the UTF-8 form of one of the ASCII characters `w`.
pub open spec fn among(b: u8, w: Seq<char>) -> bool {
    exists|i: int| 0 <= i < w.len() && #[trigger] w[i] as u32 == b
}

proof fn lemma_digit(b: u8)
    ensures
        among(b, digits()) <==> 0x30 <= b <= 0x39,
{
    let w = digits();
    reveal_strlit("0123456789");
    if 0x30 <= b <= 0x39 {
        assert(w[b - 0x30] as u32 == b);
    }
}

proof fn lemma_hex_letter(b: u8)
    ensures
        among(b, hex_letters()) <==> 0x41 <= b <= 0x46 || 0x61 <= b <= 0x66,
{
    let w = hex_letters();
    reveal_strlit("abcdefABCDEF");
    if 0x61 <= b <= 0x66 {
        assert(w[b - 0x61] as u32 == b);
    }
    if 0x41 <= b <= 0x46 {
        assert(w[b - 0x41 + 6] as u32 == b);
    }
}

proof fn lemma_letter(b: u8)
    ensures
        among(b, letters()) <==> 0x41 <= b <= 0x5a || 0x61 <= b <= 0x7a,
{
    let w = letters();
    reveal_strlit("abcdefghijklmnopqrstuvwxyzABCDEFGHIJKLMNOPQRSTUVWXYZ");
    if 0x61 <= b <= 0x7a {
        assert(w[b - 0x61] as u32 == b);
    }
    if 0x41 <= b <= 0x5a {
        assert(w[b - 0x41 + 26] as u32 == b);
    }
}

/// Which characters the sets of the grammar hold, listed one by one.
pub proof fn characters_of_the_sets(b: u8)
    ensures
        peg::in_set(CharSet::Digit, b) <==> among(b, digits()),
        peg::in_set(CharSet::HexDigit, b) <==> among(b, digits()) || among(b, hex_letters()),
        peg::in_set(CharSet::NameStart, b) <==> among(b, letters()) || b == '_' as u32,
        peg::in_set(CharSet::NamePart, b) <==> among(b, letters()) || among(b, digits()) || b
            == '_' as u32,
        peg::in_set(CharSet::StringChar, b) <==> b != '"' as u32 && b != '\\' as u32 && b
            != '\n' as u32,
        peg::in_set(CharSet::Any, b),
{
    lemma_digit(b);
    lemma_hex_letter(b);
    lemma_letter(b);
}

} // verus!
