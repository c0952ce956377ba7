//! Strings as sequences of characters and as sequences of bytes.
use vstd::prelude::*;

verus! {

/// The UTF-8 form of a string.
pub open spec fn utf8(chars: Seq<char>) -> Seq<u8> {
    vstd::utf8::encode_utf8(chars)
}

/// What the strings `ss` hold.
pub open spec fn strings(ss: Seq<String>) -> Seq<Seq<char>> {
    Seq::new(ss.len(), |i: int| ss[i]@)
}

/// Whether a character of the UTF-8 text `s` starts at `pos`, or `s` ends there.
pub open spec fn boundary(s: Seq<u8>, pos: int) -> bool {
    0 <= pos <= s.len() && (pos < s.len() ==> !(0x80 <= s[pos] < 0xc0))
}

/// The characters of a text from the byte `from` up to the byte `to`.
pub open spec fn part(chars: Seq<char>, from: int, to: int) -> Seq<char> {
    vstd::utf8::decode_utf8(utf8(chars).subrange(from, to))
}

/// `boundary` is what the standard library calls a character boundary.
pub proof fn lemma_boundary(s: Seq<u8>, pos: int)
    requires
        vstd::utf8::valid_utf8(s),
    ensures
        boundary(s, pos) == vstd::utf8::is_char_boundary(s, pos),
{
    if 0 <= pos < s.len() {
        vstd::utf8::is_char_boundary_iff_not_is_continuation_byte(s, pos);
    } else {
        vstd::utf8::is_char_boundary_start_end_of_seq(s);
    }
}

/// A text that starts with another one goes on with a whole character after it.
pub(crate) proof fn lemma_prefix_boundary(w: Seq<u8>, t: Seq<u8>)
    requires
        vstd::utf8::valid_utf8(w),
        vstd::utf8::valid_utf8(t),
        w.len() <= t.len(),
        t.subrange(0, w.len() as int) =~= w,
    ensures
        vstd::utf8::is_char_boundary(t, w.len() as int),
    decreases w.len(),
{
    if w.len() > 0 {
        assert forall|i: int| 0 <= i < w.len() implies #[trigger] w[i] == t[i] by {
            assert(t.subrange(0, w.len() as int)[i] == t[i]);
        }
        let n = vstd::utf8::length_of_first_scalar(w);
        assert(n == vstd::utf8::length_of_first_scalar(t));
        let w2 = vstd::utf8::pop_first_scalar(w);
        let t2 = vstd::utf8::pop_first_scalar(t);
        assert(t2.subrange(0, w2.len() as int) =~= w2);
        lemma_prefix_boundary(w2, t2);
    }
}

/// Where a text stands inside another one, a whole character follows it.
pub proof fn lemma_word_boundary(w: Seq<u8>, s: Seq<u8>, pos: int)
    requires
        vstd::utf8::valid_utf8(w),
        vstd::utf8::valid_utf8(s),
        boundary(s, pos),
        pos + w.len() <= s.len(),
        s.subrange(pos, pos + w.len()) =~= w,
    ensures
        boundary(s, pos + w.len()),
{
    lemma_boundary(s, pos);
    vstd::utf8::valid_utf8_split(s, pos);
    let t = s.subrange(pos, s.len() as int);
    assert(t.subrange(0, w.len() as int) =~= w);
    lemma_prefix_boundary(w, t);
    lemma_boundary(t, w.len() as int);
}

/// A whole character follows an ASCII character.
pub proof fn lemma_ascii_boundary(s: Seq<u8>, pos: int)
    requires
        vstd::utf8::valid_utf8(s),
        0 <= pos < s.len(),
        s[pos] < 0x80,
    ensures
        boundary(s, pos),
        boundary(s, pos + 1),
{
    let w = seq![s[pos]];
    assert(vstd::utf8::valid_utf8(w)) by {
        assert(vstd::utf8::pop_first_scalar(w) =~= Seq::<u8>::empty());
        assert(vstd::utf8::valid_utf8(Seq::<u8>::empty()));
    }
    assert(s.subrange(pos, pos + 1) =~= w);
    lemma_word_boundary(w, s, pos);
}

/// The UTF-8 form of a part of a text is that part of the text's UTF-8 form.
pub proof fn lemma_part(chars: Seq<char>, from: int, to: int)
    requires
        boundary(utf8(chars), from),
        boundary(utf8(chars), to),
        from <= to,
    ensures
        utf8(part(chars, from, to)) == utf8(chars).subrange(from, to),
{
    let s = utf8(chars);
    vstd::utf8::encode_utf8_valid_utf8(chars);
    lemma_boundary(s, to);
    vstd::utf8::valid_utf8_split(s, to);
    let head = s.subrange(0, to);
    assert(boundary(head, from));
    lemma_boundary(head, from);
    vstd::utf8::valid_utf8_split(head, from);
    assert(head.subrange(from, head.len() as int) =~= s.subrange(from, to));
    vstd::utf8::decode_utf8_encode_utf8(s.subrange(from, to));
}

/// Two strings with the same UTF-8 form are the same.
pub proof fn lemma_utf8_injective(a: Seq<char>, b: Seq<char>)
    ensures
        utf8(a) == utf8(b) ==> a == b,
{
    vstd::utf8::encode_utf8_decode_utf8(a);
    vstd::utf8::encode_utf8_decode_utf8(b);
}

/// The part of `s` from the byte `from` up to the byte `to`.
pub fn slice<'a>(s: &'a str, from: usize, to: usize) -> (r: &'a str)
    requires
        boundary(utf8(s@), from as int),
        boundary(utf8(s@), to as int),
        from <= to,
    ensures
        r@ == part(s@, from as int, to as int),
        utf8(r@) == utf8(s@).subrange(from as int, to as int),
{
    proof {
        vstd::utf8::encode_utf8_valid_utf8(s@);
        lemma_boundary(utf8(s@), to as int);
        lemma_part(s@, from as int, to as int);
    }
    let (head, _tail) = s.split_at(to);
    proof {
        vstd::utf8::encode_utf8_valid_utf8(head@);
        assert(utf8(head@) =~= utf8(s@).subrange(0, to as int));
        assert(boundary(utf8(head@), from as int));
        lemma_boundary(utf8(head@), from as int);
    }
    let (_before, r) = head.split_at(from);
    proof {
        assert(utf8(r@) =~= utf8(s@).subrange(from as int, to as int));
        lemma_utf8_injective(r@, part(s@, from as int, to as int));
    }
    r
}

/// Whether `a` and `b` are the same.
pub fn str_eq(a: &str, b: &str) -> (r: bool)
    ensures
        r == (a@ == b@),
{
    let x = a.as_bytes();
    let y = b.as_bytes();
    proof {
        lemma_utf8_injective(a@, b@);
    }
    if x.len() != y.len() {
        return false;
    }
    let mut i: usize = 0;
    while i < x.len()
        invariant
            i <= x@.len(),
            x@.len() == y@.len(),
            x@ == utf8(a@),
            y@ == utf8(b@),
            forall|j: int| 0 <= j < i ==> x@[j] == y@[j],
        decreases x@.len() - i,
    {
        if x[i] != y[i] {
            return false;
        }
        i = i + 1;
    }
    proof {
        assert(x@ =~= y@);
    }
    true
}

/// The characters of `s`.
pub fn to_chars(s: &str) -> (r: Vec<char>)
    ensures
        r@ == s@,
{
    let mut out: Vec<char> = Vec::new();
    let mut rest = s.chars();
    loop
        invariant
            out@ + vstd::std_specs::iter::IteratorSpec::remaining(&rest) =~= s@,
        decreases s@.len() - out@.len(),
    {
        match rest.next() {
            Some(c) => {
                out.push(c);
            },
            None => {
                return out;
            },
        }
    }
}

/// The number of line feeds in `chars`.
pub open spec fn line_feeds(chars: Seq<char>) -> nat
    decreases chars.len(),
{
    if chars.len() == 0 {
        0
    } else if chars.last() == '\n' {
        line_feeds(chars.drop_last()) + 1
    } else {
        line_feeds(chars.drop_last())
    }
}

/// The number of characters in `chars` after the last line feed.
pub open spec fn last_line_len(chars: Seq<char>) -> nat
    decreases chars.len(),
{
    if chars.len() == 0 || chars.last() == '\n' {
        0
    } else {
        last_line_len(chars.drop_last()) + 1
    }
}

/// A character takes at least one byte.
pub proof fn lemma_utf8_len(chars: Seq<char>)
    ensures
        chars.len() <= utf8(chars).len(),
    decreases chars.len(),
{
    if chars.len() > 0 {
        lemma_utf8_len(chars.drop_first());
    }
}

/// The place of the next `::` in `s` from `pos` on, or the length where there is none.
pub open spec fn next_separator(s: Seq<u8>, pos: int) -> int
    decreases s.len() - pos,
{
    if pos < 0 || pos + 2 > s.len() {
        s.len() as int
    } else if s[pos] == 0x3a && s[pos + 1] == 0x3a {
        pos
    } else {
        next_separator(s, pos + 1)
    }
}

/// The last part of `s` from `pos` on that is not empty, where `::` stands between the parts.
pub open spec fn last_part(s: Seq<u8>, pos: int) -> Option<(int, int)>
    decreases (if pos < s.len() { s.len() - pos } else { 0 }),
{
    let end = next_separator(s, pos);
    let own = if pos < end {
        Some((pos, end))
    } else {
        None
    };
    if pos <= end < s.len() && 0 <= pos {
        match last_part(s, end + 2) {
            Some(p) => Some(p),
            None => own,
        }
    } else {
        own
    }
}

/// The separator lies in the text on a whole character.
proof fn lemma_separator(s: Seq<u8>, pos: int)
    requires
        0 <= pos <= s.len(),
    ensures
        pos <= next_separator(s, pos) <= s.len(),
        next_separator(s, pos) < s.len() ==> next_separator(s, pos) + 2 <= s.len() && s[
            next_separator(s, pos)
        ] == 0x3a && s[next_separator(s, pos) + 1] == 0x3a,
    decreases s.len() - pos,
{
    if pos + 2 <= s.len() && !(s[pos] == 0x3a && s[pos + 1] == 0x3a) {
        lemma_separator(s, pos + 1);
    }
}

/// Finds the next `::`.
fn find_separator(s: &[u8], pos: usize) -> (r: usize)
    requires
        pos <= s@.len(),
    ensures
        r == next_separator(s@, pos as int),
        pos <= r <= s@.len(),
{
    let len: usize = s.len();
    let mut i: usize = pos;
    while len - i >= 2
        invariant
            len == s@.len(),
            pos <= i <= len,
            next_separator(s@, pos as int) == next_separator(s@, i as int),
        decreases len - i,
    {
        if s[i] == 0x3a && s[i + 1] == 0x3a {
            return i;
        }
        i = i + 1;
    }
    len
}

/// The last part of `s` that is not empty, where `::` stands between the parts.
pub fn last_segment<'a>(s: &'a str) -> (r: Option<&'a str>)
    ensures
        match r {
            Some(p) => last_part(utf8(s@), 0) matches Some(range) && p@ == part(
                s@,
                range.0,
                range.1,
            ),
            None => last_part(utf8(s@), 0) is None,
        },
{
    let bytes = s.as_bytes();
    let len: usize = bytes.len();
    let mut found: Option<(usize, usize)> = None;
    let mut pos: usize = 0;
    proof {
        vstd::utf8::encode_utf8_valid_utf8(s@);
        lemma_boundary(utf8(s@), 0);
        lemma_boundary(utf8(s@), len as int);
        vstd::utf8::is_char_boundary_start_end_of_seq(utf8(s@));
    }
    loop
        invariant
            len == bytes@.len(),
            bytes@ == utf8(s@),
            vstd::utf8::valid_utf8(bytes@),
            pos <= len,
            boundary(bytes@, pos as int),
            boundary(bytes@, len as int),
            found matches Some(p) ==> p.0 <= p.1 && boundary(bytes@, p.0 as int) && boundary(
                bytes@,
                p.1 as int,
            ),
            last_part(bytes@, 0) == (match last_part(bytes@, pos as int) {
                Some(p) => Some(p),
                None => match found {
                    Some(p) => Some((p.0 as int, p.1 as int)),
                    None => None,
                },
            }),
        decreases len - pos,
    {
        let end: usize = find_separator(bytes, pos);
        proof {
            lemma_separator(bytes@, pos as int);
            if end < len {
                lemma_ascii_boundary(bytes@, end as int);
                lemma_ascii_boundary(bytes@, end + 1);
            }
        }
        if pos < end {
            found = Some((pos, end));
        }
        if end >= len {
            return match found {
                Some((from, to)) => Some(slice(s, from, to)),
                None => None,
            };
        }
        pos = end + 2;
    }
}

/// Whether `s` ends with `suffix` and is more than it.
pub fn has_suffix(s: &str, suffix: &str) -> (r: bool)
    ensures
        r == (s@.len() > suffix@.len() && s@.skip(s@.len() - suffix@.len()) == suffix@),
{
    let a = to_chars(s);
    let b = to_chars(suffix);
    if a.len() <= b.len() {
        return false;
    }
    let len: usize = a.len();
    let start: usize = len - b.len();
    let mut i: usize = 0;
    while i < b.len()
        invariant
            len == a@.len(),
            a@ == s@,
            b@ == suffix@,
            i <= b@.len(),
            start + b@.len() == a@.len(),
            forall|j: int| 0 <= j < i ==> a@[start + j] == b@[j],
        decreases b@.len() - i,
    {
        if a[start + i] != b[i] {
            proof {
                assert(s@.skip(start as int)[i as int] != suffix@[i as int]);
            }
            return false;
        }
        i = i + 1;
    }
    proof {
        assert(s@.skip(start as int) =~= suffix@);
    }
    true
}

/// `String::push` of the standard library puts a character at the end of a string.
pub assume_specification[ String::push ](s: &mut String, c: char)
    ensures
        final(s)@ == old(s)@.push(c),
;

/// Whether `needle` stands in `chars` at `i`.
pub open spec fn found_at(chars: Seq<char>, needle: Seq<char>, i: int) -> bool {
    0 <= i && i + needle.len() <= chars.len() && chars.subrange(i, i + needle.len()) == needle
}

/// Whether `needle` stands somewhere in `chars`.
pub open spec fn occurs_in(needle: Seq<char>, chars: Seq<char>) -> bool {
    exists|i: int| #[trigger] found_at(chars, needle, i)
}

/// `chars` with `to` in place of every `from`, from left to right. An empty `from` stands
/// before every character and at the end.
pub open spec fn replaced(chars: Seq<char>, from: Seq<char>, to: Seq<char>) -> Seq<char>
    decreases chars.len(),
{
    if from.len() == 0 {
        if chars.len() == 0 {
            to
        } else {
            to + seq![chars[0]] + replaced(chars.skip(1), from, to)
        }
    } else if found_at(chars, from, 0) {
        to + replaced(chars.skip(from.len() as int), from, to)
    } else if chars.len() == 0 {
        Seq::empty()
    } else {
        seq![chars[0]] + replaced(chars.skip(1), from, to)
    }
}

/// Whether `needle` stands in `chars` at `i`.
fn is_found_at(chars: &Vec<char>, needle: &Vec<char>, i: usize) -> (r: bool)
    requires
        i <= chars@.len(),
    ensures
        r == found_at(chars@, needle@, i as int),
{
    let len: usize = chars.len();
    if len - i < needle.len() {
        return false;
    }
    let mut j: usize = 0;
    while j < needle.len()
        invariant
            len == chars@.len(),
            i + needle@.len() <= len,
            j <= needle@.len(),
            forall|k: int| 0 <= k < j ==> chars@[i + k] == needle@[k],
        decreases needle@.len() - j,
    {
        if chars[i + j] != needle[j] {
            proof {
                assert(chars@.subrange(i as int, i + needle@.len())[j as int] != needle@[j as int]);
            }
            return false;
        }
        j = j + 1;
    }
    proof {
        assert(chars@.subrange(i as int, i + needle@.len()) =~= needle@);
    }
    true
}

/// Whether `needle` stands somewhere in `s`.
pub fn contains(s: &str, needle: &str) -> (r: bool)
    ensures
        r == occurs_in(needle@, s@),
{
    let chars = to_chars(s);
    let needle_chars = to_chars(needle);
    let mut i: usize = 0;
    loop
        invariant
            chars@ == s@,
            needle_chars@ == needle@,
            i <= chars@.len(),
            forall|k: int| 0 <= k < i ==> !#[trigger] found_at(s@, needle@, k),
        decreases chars@.len() - i,
    {
        if is_found_at(&chars, &needle_chars, i) {
            return true;
        }
        if i == chars.len() {
            return false;
        }
        i = i + 1;
    }
}

/// Puts `to` in place of every `from` in `s`.
pub fn replace(s: &str, from: &str, to: &str) -> (r: String)
    ensures
        r@ == replaced(s@, from@, to@),
{
    let chars = to_chars(s);
    let from_chars = to_chars(from);
    let len: usize = chars.len();
    let mut out = String::new();
    let mut i: usize = 0;
    proof {
        assert(s@.skip(0) =~= s@);
        assert(out@ + replaced(s@, from@, to@) =~= replaced(s@, from@, to@));
    }
    while i < len
        invariant
            len == chars@.len(),
            chars@ == s@,
            from_chars@ == from@,
            i <= len,
            out@ + replaced(s@.skip(i as int), from@, to@) == replaced(s@, from@, to@),
        decreases len - i,
    {
        let ghost rest = s@.skip(i as int);
        let ghost before = out@;
        proof {
            assert(found_at(rest, from@, 0) == found_at(s@, from@, i as int)) by {
                if i + from@.len() <= len {
                    assert(rest.subrange(0, from@.len() as int) =~= s@.subrange(
                        i as int,
                        i + from@.len(),
                    ));
                }
            }
            assert(rest.skip(1) =~= s@.skip(i + 1));
            if i + from@.len() <= len {
                assert(rest.skip(from@.len() as int) =~= s@.skip(i + from@.len()));
            }
        }
        if from_chars.len() == 0 {
            out.append(to);
            out.push(chars[i]);
            i = i + 1;
            proof {
                assert(out@ + replaced(s@.skip(i as int), from@, to@) =~= before + replaced(
                    rest,
                    from@,
                    to@,
                ));
            }
        } else if is_found_at(&chars, &from_chars, i) {
            out.append(to);
            i = i + from_chars.len();
            proof {
                assert(out@ + replaced(s@.skip(i as int), from@, to@) =~= before + replaced(
                    rest,
                    from@,
                    to@,
                ));
            }
        } else {
            out.push(chars[i]);
            i = i + 1;
            proof {
                assert(out@ + replaced(s@.skip(i as int), from@, to@) =~= before + replaced(
                    rest,
                    from@,
                    to@,
                ));
            }
        }
    }
    proof {
        assert(s@.skip(len as int).len() == 0);
        assert(out@ + Seq::<char>::empty() =~= out@);
    }
    if from_chars.len() == 0 {
        out.append(to);
    }
    out
}

} // verus!
