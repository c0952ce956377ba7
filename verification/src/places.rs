//! What the lines, the columns and the parts of a text are.
use vstd::prelude::*;

use crate::joined;
use crate::lexical;
use crate::lsp;
use crate::mojomast;
use crate::moved;
use crate::peg;
use crate::syntax;
use crate::text;

verus! {

/// The part of a text between two others is that part, character by character.
pub proof fn part_is_what_stands_there(a: Seq<char>, b: Seq<char>, c: Seq<char>)
    ensures
        text::part(
            a + b + c,
            text::utf8(a).len() as int,
            (text::utf8(a).len() + text::utf8(b).len()) as int,
        ) == b,
{
    let s = text::utf8(a + b + c);
    let p = text::utf8(a).len() as int;
    let q = p + text::utf8(b).len();
    joined::lemma_utf8_append(a, b);
    joined::lemma_utf8_append(a + b, c);
    assert(s.subrange(p, q) =~= text::utf8(b));
    vstd::utf8::encode_utf8_decode_utf8(b);
}

/// Whether `chars` has no line feed.
pub open spec fn is_one_line(chars: Seq<char>) -> bool {
    forall|i: int| 0 <= i < chars.len() ==> #[trigger] chars[i] != '\n'
}

/// The line feeds of two texts, one behind the other, add up. A line feed is one, and a text
/// with only one line has none.
pub proof fn line_feeds_add_up(a: Seq<char>, b: Seq<char>)
    ensures
        text::line_feeds(a + b) == text::line_feeds(a) + text::line_feeds(b),
        text::line_feeds(seq!['\n']) == 1,
        is_one_line(b) ==> text::line_feeds(b) == 0,
    decreases b.len(),
{
    assert(seq!['\n'].drop_last() =~= Seq::<char>::empty());
    assert(text::line_feeds(seq!['\n'].drop_last()) == 0);
    if b.len() == 0 {
        assert(a + b =~= a);
    } else {
        line_feeds_add_up(a, b.drop_last());
        assert((a + b).drop_last() =~= a + b.drop_last());
        if is_one_line(b) {
            assert(is_one_line(b.drop_last())) by {
                let front = b.drop_last();
                assert forall|i: int| 0 <= i < front.len() implies #[trigger] front[i] != '\n' by {
                    assert(b[i] != '\n');
                }
            }
            assert(b[b.len() - 1] != '\n');
        }
    }
}

/// The column at the end of a text is the length of its last line, in characters.
pub proof fn column_is_the_length_of_the_last_line(a: Seq<char>, b: Seq<char>)
    requires
        is_one_line(b),
    ensures
        text::last_line_len(b) == b.len(),
        text::last_line_len(a + seq!['\n'] + b) == b.len(),
    decreases b.len(),
{
    let t = a + seq!['\n'] + b;
    if b.len() == 0 {
        assert(t.last() == '\n');
    } else {
        let c = b.drop_last();
        assert(is_one_line(c)) by {
            assert forall|i: int| 0 <= i < c.len() implies #[trigger] c[i] != '\n' by {
                assert(b[i] != '\n');
            }
        }
        column_is_the_length_of_the_last_line(a, c);
        assert(t.drop_last() =~= a + seq!['\n'] + c);
        assert(b[b.len() - 1] != '\n');
    }
}

/// The place behind the first part of a text has the number of that part's line feeds as its
/// line and the length of its last line as its column.
pub proof fn position_counts_what_is_before(a: Seq<char>, b: Seq<char>)
    ensures
        syntax::lsp_position(a + b, text::utf8(a).len() as int).line == text::line_feeds(a) as u32,
        syntax::lsp_position(a + b, text::utf8(a).len() as int).character == text::last_line_len(
            a,
        ) as u32,
{
    part_is_what_stands_there(Seq::empty(), a, b);
    assert(Seq::<char>::empty() + a + b =~= a + b);
    assert(text::utf8(Seq::<char>::empty()).len() == 0);
}

/// A range is shown by the places where it starts and ends.
pub proof fn range_is_shown_by_its_ends(a: Seq<char>, b: Seq<char>, c: Seq<char>)
    ensures
        ({
            let r = syntax::lsp_range_of(
                a + b + c,
                text::utf8(a).len() as int,
                text::utf8(a + b).len() as int,
            );
            &&& r.start.line == text::line_feeds(a) as u32
            &&& r.start.character == text::last_line_len(a) as u32
            &&& r.end.line == text::line_feeds(a + b) as u32
            &&& r.end.character == text::last_line_len(a + b) as u32
        }),
{
    position_counts_what_is_before(a, b + c);
    assert(a + (b + c) =~= a + b + c);
    position_counts_what_is_before(a + b, c);
}

/// Lines are as long wherever they stand at the end of a text.
proof fn lemma_lines_moved(s: Seq<u8>, t: Seq<u8>, k: nat, pos: int, n: nat)
    requires
        moved::is_behind(s, t, k),
        0 <= pos,
    ensures
        mojomast::lines_len(t, pos + k, n) == mojomast::lines_len(s, pos, n),
    decreases n,
{
    if n > 0 && pos < s.len() {
        moved::lemma_line(s, t, k, pos);
        lexical::line_ends_at_the_first_line_feed(s, pos);
        let m = peg::line_rest(s, pos);
        if m > 0 {
            assert(s[pos + m - 1] == t[pos + m - 1 + k]);
        }
        lemma_lines_moved(s, t, k, pos + m + 1, (n - 1) as nat);
    }
}

/// A position on the first line is its column. One on a later line is as far behind the first
/// line as it is in the rest of the text; the line feed counts for one byte, and a carriage
/// return before it does not count.
pub proof fn offset_counts_lines_and_columns(
    line: Seq<u8>,
    cr: bool,
    rest: Seq<u8>,
    n: nat,
)
    requires
        forall|i: int| 0 <= i < line.len() ==> #[trigger] line[i] != 0x0a,
        line.len() > 0 ==> line[line.len() - 1] != 0x0d,
    ensures
        ({
            let end = if cr {
                seq![0x0du8, 0x0au8]
            } else {
                seq![0x0au8]
            };
            let s = line + end + rest;
            &&& mojomast::lines_len(s, 0, 0) == 0
            &&& mojomast::lines_len(s, 0, n + 1) == line.len() + 1 + mojomast::lines_len(
                rest,
                0,
                n,
            )
        }),
{
    let end = if cr {
        seq![0x0du8, 0x0au8]
    } else {
        seq![0x0au8]
    };
    let s = line + end + rest;
    let m = (line.len() + end.len() - 1) as int;
    assert(s[m] == 0x0a);
    assert forall|k: int| 0 <= k < m implies #[trigger] s[k] != 0x0a by {
        if k < line.len() {
            assert(s[k] == line[k]);
        }
    }
    lexical::line_ends_at_the_first_line_feed(s, 0);
    let k = peg::line_rest(s, 0);
    assert(k == m) by {
        if k < m {
            assert(s[k as int] != 0x0a);
        }
        if k > m {
            assert(s[m] != 0x0a);
        }
    }
    lemma_lines_moved(rest, s, line.len() + end.len(), 0, n);
    if cr {
        assert(s[m - 1] == 0x0d);
    } else if line.len() > 0 {
        assert(s[m - 1] == line[line.len() - 1]);
    }
}

/// The offset of a position is that of its line and its column.
pub proof fn offset_is_line_and_column(chars: Seq<char>, position: lsp::Position)
    ensures
        position.line == 0 ==> mojomast::offset_of(chars, position) == position.character,
        forall|other: lsp::Position|
            other.line == position.line ==> (#[trigger] mojomast::offset_of(chars, other))
                - mojomast::offset_of(chars, position) == other.character - position.character,
{
}

/// The token at a syntax error goes up to the first space, carriage return or line feed behind
/// its start, or up to the end of the text.
pub proof fn token_ends_at_white_space(s: Seq<u8>, pos: int)
    requires
        0 <= pos <= s.len(),
    ensures
        ({
            let end = pos + syntax::token_len(s, pos);
            &&& end <= s.len()
            &&& forall|k: int|
                pos <= k < end ==> #[trigger] s[k] != 0x20 && s[k] != 0x0d && s[k] != 0x0a
            &&& end < s.len() ==> s[end] == 0x20 || s[end] == 0x0d || s[end] == 0x0a
        }),
    decreases s.len() - pos,
{
    if pos < s.len() && !(s[pos] == 0x20 || s[pos] == 0x0d || s[pos] == 0x0a) {
        token_ends_at_white_space(s, pos + 1);
    }
}

/// The bytes of an identifier are the ASCII letters, the digits, the underscore and the dot.
pub proof fn bytes_of_identifiers(b: u8)
    ensures
        mojomast::is_identifier_byte(b) <==> lexical::among(b, lexical::letters())
            || lexical::among(b, lexical::digits()) || b == '_' as u32 || b == '.' as u32,
{
    lexical::characters_of_the_sets(b);
}

} // verus!
