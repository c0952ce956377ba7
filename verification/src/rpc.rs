//! The framing of messages: the header before each message says how many bytes follow.
use vstd::prelude::*;

use crate::protocol::Header;
use crate::text;

verus! {

/// Whether `c` is white space in Unicode.
pub open spec fn is_white(c: char) -> bool {
    ||| '\u{9}' <= c <= '\u{d}'
    ||| c == '\u{20}'
    ||| c == '\u{85}'
    ||| c == '\u{a0}'
    ||| c == '\u{1680}'
    ||| '\u{2000}' <= c <= '\u{200a}'
    ||| c == '\u{2028}'
    ||| c == '\u{2029}'
    ||| c == '\u{202f}'
    ||| c == '\u{205f}'
    ||| c == '\u{3000}'
}

/// `chars` without white space in front.
pub open spec fn trimmed_front(chars: Seq<char>) -> Seq<char>
    decreases chars.len(),
{
    if chars.len() > 0 && is_white(chars[0]) {
        trimmed_front(chars.skip(1))
    } else {
        chars
    }
}

/// `chars` without white space at the end.
pub open spec fn trimmed_back(chars: Seq<char>) -> Seq<char>
    decreases chars.len(),
{
    if chars.len() > 0 && is_white(chars.last()) {
        trimmed_back(chars.drop_last())
    } else {
        chars
    }
}

/// `chars` without white space in front and at the end.
pub open spec fn trimmed(chars: Seq<char>) -> Seq<char> {
    trimmed_back(trimmed_front(chars))
}

/// Whether `c` is a decimal digit.
pub open spec fn is_digit(c: char) -> bool {
    '0' <= c <= '9'
}

/// Whether all of `chars` are decimal digits.
pub open spec fn all_digits(chars: Seq<char>) -> bool {
    forall|i: int| 0 <= i < chars.len() ==> is_digit(#[trigger] chars[i])
}

/// The number that decimal digits stand for.
pub open spec fn digits_value(chars: Seq<char>) -> nat
    decreases chars.len(),
{
    if chars.len() == 0 {
        0
    } else {
        digits_value(chars.drop_last()) * 10 + (chars.last() as nat - '0' as nat) as nat
    }
}

/// The number that `chars` stand for: decimal digits, behind a plus sign if there is one.
pub open spec fn number(chars: Seq<char>) -> Option<nat> {
    let digits = if chars.len() > 0 && chars[0] == '+' {
        chars.skip(1)
    } else {
        chars
    };
    if digits.len() > 0 && all_digits(digits) {
        Some(digits_value(digits))
    } else {
        None
    }
}

/// The lower case of an ASCII letter, and every other character as it is.
pub open spec fn ascii_lower(c: char) -> char {
    if 'A' <= c <= 'Z' {
        (c as u32 + 32) as char
    } else {
        c
    }
}

/// Whether `a` and `b` are the same but for the case of ASCII letters.
pub open spec fn same_but_case(a: Seq<char>, b: Seq<char>) -> bool {
    a.len() == b.len() && forall|i: int|
        0 <= i < a.len() ==> ascii_lower(#[trigger] a[i]) == ascii_lower(b[i])
}

/// The place of the first colon, or the length where there is none.
pub open spec fn colon(chars: Seq<char>) -> int
    decreases chars.len(),
{
    if chars.len() == 0 || chars[0] == ':' {
        0
    } else {
        1 + colon(chars.skip(1))
    }
}

/// Why a header cannot be read.
#[derive(Debug, PartialEq, Eq)]
pub enum HeaderError {
    /// The input ended.
    NoHeader,
    /// This line has no colon.
    InvalidField(String),
    /// The length of the content is given twice.
    MultipleLengths,
    /// The length of the content is no number that fits.
    InvalidLength,
    /// The length of the content is not given.
    MissingLength,
}

/// What a line of a header leads to.
#[derive(Debug, PartialEq, Eq)]
pub enum HeaderStep {
    /// There are more lines to come.
    More,
    /// The header is complete.
    Done(Header),
    /// The header cannot be read.
    Failed(HeaderError),
}

/// A header that is being read.
#[derive(Debug)]
pub struct HeaderReader {
    pub content_length: Option<usize>,
}

/// What the reason says.
#[verifier::ext_equal]
pub enum HeaderErrorView {
    NoHeader,
    InvalidField(Seq<char>),
    MultipleLengths,
    InvalidLength,
    MissingLength,
}

impl View for HeaderError {
    type V = HeaderErrorView;

    open spec fn view(&self) -> HeaderErrorView {
        match self {
            HeaderError::NoHeader => HeaderErrorView::NoHeader,
            HeaderError::InvalidField(line) => HeaderErrorView::InvalidField(line@),
            HeaderError::MultipleLengths => HeaderErrorView::MultipleLengths,
            HeaderError::InvalidLength => HeaderErrorView::InvalidLength,
            HeaderError::MissingLength => HeaderErrorView::MissingLength,
        }
    }
}

/// What the step says.
#[verifier::ext_equal]
pub enum HeaderStepView {
    More,
    Done(Header),
    Failed(HeaderErrorView),
}

impl View for HeaderStep {
    type V = HeaderStepView;

    open spec fn view(&self) -> HeaderStepView {
        match self {
            HeaderStep::More => HeaderStepView::More,
            HeaderStep::Done(header) => HeaderStepView::Done(*header),
            HeaderStep::Failed(err) => HeaderStepView::Failed(err@),
        }
    }
}

/// What a field with this name and value leads to, and the length that is given then, where
/// `length` is the one that was given so far.
pub open spec fn field_step(length: Option<usize>, name: Seq<char>, value: Seq<char>) -> (
    HeaderStepView,
    Option<usize>,
) {
    if !same_but_case(name, "content-length"@) {
        (HeaderStepView::More, length)
    } else if length is Some {
        (HeaderStepView::Failed(HeaderErrorView::MultipleLengths), length)
    } else {
        match number(trimmed(value)) {
            Some(n) => if n <= usize::MAX {
                (HeaderStepView::More, Some(n as usize))
            } else {
                (HeaderStepView::Failed(HeaderErrorView::InvalidLength), length)
            },
            None => (HeaderStepView::Failed(HeaderErrorView::InvalidLength), length),
        }
    }
}

/// What the line `line` leads to, and the length that is given then, where `length` is the one
/// that was given so far.
pub open spec fn line_step(length: Option<usize>, line: Seq<char>) -> (
    HeaderStepView,
    Option<usize>,
) {
    if line.len() == 0 {
        (HeaderStepView::Failed(HeaderErrorView::NoHeader), length)
    } else if line == "\r\n"@ {
        match length {
            Some(n) => (HeaderStepView::Done(Header { content_length: n }), length),
            None => (HeaderStepView::Failed(HeaderErrorView::MissingLength), length),
        }
    } else if colon(line) == line.len() {
        (HeaderStepView::Failed(HeaderErrorView::InvalidField(line)), length)
    } else {
        field_step(length, line.take(colon(line)), line.skip(colon(line) + 1))
    }
}

fn white(c: char) -> (r: bool)
    ensures
        r == is_white(c),
{
    ('\u{9}' <= c && c <= '\u{d}') || c == '\u{20}' || c == '\u{85}' || c == '\u{a0}' || c
        == '\u{1680}' || ('\u{2000}' <= c && c <= '\u{200a}') || c == '\u{2028}' || c == '\u{2029}'
        || c == '\u{202f}' || c == '\u{205f}' || c == '\u{3000}'
}

/// The part of `chars` from `from` up to `to`, without white space in front and at the end.
fn trim(chars: &Vec<char>, from: usize) -> (r: (usize, usize))
    requires
        from <= chars@.len(),
    ensures
        from <= r.0 <= r.1 <= chars@.len(),
        chars@.subrange(r.0 as int, r.1 as int) == trimmed(chars@.skip(from as int)),
{
    let mut a: usize = from;
    while a < chars.len() && white(chars[a])
        invariant
            from <= a <= chars@.len(),
            trimmed_front(chars@.skip(from as int)) == trimmed_front(chars@.skip(a as int)),
        decreases chars@.len() - a,
    {
        proof {
            assert(chars@.skip(a as int).skip(1) =~= chars@.skip(a + 1));
        }
        a = a + 1;
    }
    let ghost front = chars@.skip(a as int);
    let mut b: usize = chars.len();
    proof {
        assert(chars@.subrange(a as int, b as int) =~= front);
    }
    while b > a && white(chars[b - 1])
        invariant
            a <= b <= chars@.len(),
            trimmed_back(front) == trimmed_back(chars@.subrange(a as int, b as int)),
        decreases b,
    {
        proof {
            assert(chars@.subrange(a as int, b as int).drop_last() =~= chars@.subrange(
                a as int,
                b - 1,
            ));
        }
        b = b - 1;
    }
    (a, b)
}

/// More digits stand for a number that is not smaller.
proof fn lemma_digits_grow(chars: Seq<char>, n: int)
    requires
        0 <= n <= chars.len(),
    ensures
        digits_value(chars.take(n)) <= digits_value(chars),
    decreases chars.len(),
{
    if n < chars.len() {
        assert(chars.drop_last().take(n) =~= chars.take(n));
        lemma_digits_grow(chars.drop_last(), n);
    } else {
        assert(chars.take(n) =~= chars);
    }
}

/// Reads the number in `chars` from `from` up to `to`.
fn parse_number(chars: &Vec<char>, from: usize, to: usize) -> (r: Option<usize>)
    requires
        from <= to <= chars@.len(),
    ensures
        match r {
            Some(n) => number(chars@.subrange(from as int, to as int)) == Some(n as nat),
            None => number(chars@.subrange(from as int, to as int)) matches Some(n) ==> n
                > usize::MAX,
        },
{
    let ghost all = chars@.subrange(from as int, to as int);
    let start: usize = if from < to && chars[from] == '+' {
        from + 1
    } else {
        from
    };
    let ghost digits = chars@.subrange(start as int, to as int);
    proof {
        if start == from + 1 {
            assert(all.skip(1) =~= digits);
        }
    }
    if start == to {
        return None;
    }
    let mut value: usize = 0;
    let mut i: usize = start;
    while i < to
        invariant
            start <= i <= to <= chars@.len(),
            digits == chars@.subrange(start as int, to as int),
            start < to,
            number(all) == (if digits.len() > 0 && all_digits(digits) {
                Some(digits_value(digits))
            } else {
                None
            }),
            all == chars@.subrange(from as int, to as int),
            all_digits(digits.take(i - start)),
            value == digits_value(digits.take(i - start)),
        decreases to - i,
    {
        let c = chars[i];
        proof {
            assert(digits[i - start] == c);
            assert(digits.take(i - start + 1).drop_last() =~= digits.take(i - start));
        }
        if !('0' <= c && c <= '9') {
            return None;
        }
        let d: usize = (c as u32 - '0' as u32) as usize;
        proof {
            lemma_digits_grow(digits, i - start + 1);
            assert(digits_value(digits.take(i - start + 1)) == value * 10 + d);
        }
        match value.checked_mul(10) {
            Some(tens) => match tens.checked_add(d) {
                Some(sum) => {
                    value = sum;
                },
                None => {
                    return None;
                },
            },
            None => {
                return None;
            },
        }
        i = i + 1;
    }
    proof {
        assert(digits.take(i - start) =~= digits);
    }
    Some(value)
}

fn lower(c: char) -> (r: char)
    ensures
        r == ascii_lower(c),
{
    if 'A' <= c && c <= 'Z' {
        (c as u8 + 32) as char
    } else {
        c
    }
}

/// Whether the first `n` of `chars` are `name` but for the case of ASCII letters.
fn is_named(chars: &Vec<char>, n: usize, name: &str) -> (r: bool)
    requires
        n <= chars@.len(),
    ensures
        r == same_but_case(chars@.take(n as int), name@),
{
    let expected = text::to_chars(name);
    if expected.len() != n {
        return false;
    }
    let mut i: usize = 0;
    while i < n
        invariant
            i <= n <= chars@.len(),
            expected@ == name@,
            expected@.len() == n,
            forall|j: int| 0 <= j < i ==> ascii_lower(#[trigger] chars@[j]) == ascii_lower(expected@[j]),
        decreases n - i,
    {
        if lower(chars[i]) != lower(expected[i]) {
            proof {
                assert(chars@.take(n as int)[i as int] == chars@[i as int]);
            }
            return false;
        }
        i = i + 1;
    }
    true
}

/// Finds the first colon.
fn find_colon(chars: &Vec<char>) -> (r: usize)
    ensures
        r == colon(chars@),
        r <= chars@.len(),
{
    let mut i: usize = 0;
    proof {
        assert(chars@.skip(0) =~= chars@);
    }
    while i < chars.len() && chars[i] != ':'
        invariant
            i <= chars@.len(),
            colon(chars@) == i + colon(chars@.skip(i as int)),
        decreases chars@.len() - i,
    {
        proof {
            assert(chars@.skip(i as int).skip(1) =~= chars@.skip(i + 1));
        }
        i = i + 1;
    }
    i
}

impl HeaderReader {
    /// A header of which nothing was read.
    pub fn new() -> (r: HeaderReader)
        ensures
            r.content_length is None,
    {
        HeaderReader { content_length: None }
    }

    /// Takes the next line of the header, with the end of the line. No characters mean that
    /// the input has ended.
    pub fn read_line(&mut self, line: &str) -> (step: HeaderStep)
        ensures
            (step@, final(self).content_length) == line_step(old(self).content_length, line@),
    {
        let chars = text::to_chars(line);
        if chars.len() == 0 {
            return HeaderStep::Failed(HeaderError::NoHeader);
        }
        if text::str_eq(line, "\r\n") {
            return match self.content_length {
                Some(content_length) => HeaderStep::Done(Header { content_length }),
                None => HeaderStep::Failed(HeaderError::MissingLength),
            };
        }
        let n: usize = find_colon(&chars);
        if n == chars.len() {
            return HeaderStep::Failed(HeaderError::InvalidField(line.to_owned()));
        }
        if is_named(&chars, n, "content-length") {
            if self.content_length.is_some() {
                return HeaderStep::Failed(HeaderError::MultipleLengths);
            }
            let (from, to) = trim(&chars, n + 1);
            match parse_number(&chars, from, to) {
                Some(length) => {
                    self.content_length = Some(length);
                },
                None => {
                    return HeaderStep::Failed(HeaderError::InvalidLength);
                },
            }
        }
        HeaderStep::More
    }
}

/// A decimal digit.
pub open spec fn digit(d: nat) -> char {
    ('0' as u32 + d) as char
}

/// `n` in decimal digits.
pub open spec fn decimal(n: nat) -> Seq<char>
    decreases n,
{
    if n < 10 {
        seq![digit(n)]
    } else {
        decimal(n / 10).push(digit(n % 10))
    }
}

/// The header of a message of `n` bytes.
pub open spec fn header_text(n: nat) -> Seq<char> {
    length_line(n) + "\r\n"@
}

/// The line of a header that gives the length `n`.
pub open spec fn length_line(n: nat) -> Seq<char> {
    "Content-Length: "@ + decimal(n) + "\r\n"@
}

/// Writes the digit `d`.
fn write_digit(d: usize) -> (r: &'static str)
    requires
        d < 10,
    ensures
        r@ == seq![digit(d as nat)],
{
    let r = if d == 0 {
        "0"
    } else if d == 1 {
        "1"
    } else if d == 2 {
        "2"
    } else if d == 3 {
        "3"
    } else if d == 4 {
        "4"
    } else if d == 5 {
        "5"
    } else if d == 6 {
        "6"
    } else if d == 7 {
        "7"
    } else if d == 8 {
        "8"
    } else {
        "9"
    };
    proof {
        reveal_strlit("0");
        reveal_strlit("1");
        reveal_strlit("2");
        reveal_strlit("3");
        reveal_strlit("4");
        reveal_strlit("5");
        reveal_strlit("6");
        reveal_strlit("7");
        reveal_strlit("8");
        reveal_strlit("9");
        assert(r@ =~= seq![digit(d as nat)]);
    }
    r
}

/// Writes `n` in decimal digits.
fn write_decimal(n: usize) -> (r: String)
    ensures
        r@ == decimal(n as nat),
    decreases n,
{
    if n < 10 {
        write_digit(n).to_owned()
    } else {
        let mut r = write_decimal(n / 10);
        r.append(write_digit(n % 10));
        proof {
            assert(r@ =~= decimal(n as nat));
        }
        r
    }
}

/// Writes the header of a message of `content_length` bytes.
pub fn write_header(content_length: usize) -> (r: String)
    ensures
        r@ == header_text(content_length as nat),
{
    let mut header = "Content-Length: ".to_owned();
    header.append(write_decimal(content_length).as_str());
    header.append("\r\n\r\n");
    proof {
        reveal_strlit("\r\n\r\n");
        reveal_strlit("\r\n");
        assert(header@ =~= header_text(content_length as nat));
    }
    header
}

/// Writes the header that goes before `message`.
pub fn message_header(message: &str) -> (r: String)
    ensures
        r@ == header_text(text::utf8(message@).len()),
{
    write_header(message.as_bytes().len())
}

/// Decimal digits stand for the number that they were written for.
pub(crate) proof fn lemma_decimal(n: nat)
    ensures
        decimal(n).len() > 0,
        all_digits(decimal(n)),
        digits_value(decimal(n)) == n,
    decreases n,
{
    reveal_with_fuel(digits_value, 2);
    if n >= 10 {
        lemma_decimal(n / 10);
        let ds = decimal(n / 10);
        let d = digit(n % 10);
        assert(ds.push(d).drop_last() =~= ds);
        assert(is_digit(d));
        assert forall|i: int| 0 <= i < ds.push(d).len() implies is_digit(
            #[trigger] ds.push(d)[i],
        ) by {
            if i < ds.len() {
                assert(is_digit(ds[i]));
            }
        }
    }
}

/// Digits have no white space around them to trim.
proof fn lemma_trim_digits(ds: Seq<char>)
    requires
        ds.len() > 0,
        all_digits(ds),
    ensures
        trimmed(seq![' '] + ds + seq!['\r', '\n']) == ds,
{
    let a = seq![' '] + ds + seq!['\r', '\n'];
    let b = ds + seq!['\r', '\n'];
    assert(a.skip(1) =~= b);
    assert(is_digit(b[0])) by {
        assert(is_digit(ds[0]));
    }
    reveal_with_fuel(trimmed_front, 2);
    assert(trimmed_front(a) == b);
    assert(b.drop_last() =~= ds.push('\r'));
    assert(ds.push('\r').drop_last() =~= ds);
    assert(is_digit(ds.last()));
    reveal_with_fuel(trimmed_back, 3);
}

/// What is written before a message is read back: the line with the length leads on, the
/// empty line after it completes the header, and the header gives that length.
pub proof fn header_round_trip(n: usize)
    ensures
        header_text(n as nat) == length_line(n as nat) + "\r\n"@,
        line_step(None, length_line(n as nat)) == (HeaderStepView::More, Some(n)),
        line_step(Some(n), "\r\n"@) == (
            HeaderStepView::Done(Header { content_length: n }),
            Some(n),
        ),
{
    reveal_strlit("\r\n");
    reveal_strlit("Content-Length: ");
    reveal_strlit("content-length");
    let line = length_line(n as nat);
    let ds = decimal(n as nat);
    lemma_decimal(n as nat);
    lemma_trim_digits(ds);
    assert("\r\n"@ =~= seq!['\r', '\n']);
    let prefix = "Content-Length: "@;
    assert(line.len() == 18 + ds.len());
    assert(line[0] == 'C');
    assert(line != "\r\n"@);
    lemma_colon(line, 14);
    assert(line.take(14) =~= prefix.take(14));
    assert(same_but_case(line.take(14), "content-length"@));
    assert(line.skip(15) =~= seq![' '] + ds + seq!['\r', '\n']);
    assert(ds[0] != '+') by {
        assert(is_digit(ds[0]));
    }
}

/// The first colon.
proof fn lemma_colon(chars: Seq<char>, i: int)
    requires
        0 <= i < chars.len(),
        chars[i] == ':',
        forall|j: int| 0 <= j < i ==> chars[j] != ':',
    ensures
        colon(chars) == i,
    decreases i,
{
    if i > 0 {
        let rest = chars.skip(1);
        assert forall|j: int| 0 <= j < i - 1 implies rest[j] != ':' by {
            assert(rest[j] == chars[j + 1]);
        }
        lemma_colon(rest, i - 1);
    }
}

} // verus!
