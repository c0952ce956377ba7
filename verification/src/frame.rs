//! Whole messages in a stream of bytes: a header and the bytes that it counts.
use vstd::prelude::*;

use crate::peg;
use crate::protocol;
use crate::protocol::{Forms, Header, Message};
use crate::rpc;
use crate::rpc::{HeaderError, HeaderErrorView, HeaderReader, HeaderStep, HeaderStepView};
use crate::text;

verus! {

/// Why no message can be read.
#[derive(Debug, PartialEq, Eq)]
pub enum FrameError {
    /// The header cannot be read.
    Header(HeaderError),
    /// A line of the header is not UTF-8.
    NotText,
    /// The input ended inside the message.
    Truncated,
}

/// What the bytes that are there lead to.
#[derive(Debug, PartialEq, Eq)]
pub enum FrameStep {
    /// More bytes are needed.
    More,
    /// The message stands from the first place up to the second.
    Message(usize, usize),
    /// No message can be read.
    Failed(FrameError),
}

/// What the step says.
#[verifier::ext_equal]
pub enum FrameStepView {
    More,
    Message(int, int),
    Header(HeaderErrorView),
    NotText,
    Truncated,
}

impl View for FrameStep {
    type V = FrameStepView;

    open spec fn view(&self) -> FrameStepView {
        match self {
            FrameStep::More => FrameStepView::More,
            FrameStep::Message(from, to) => FrameStepView::Message(*from as int, *to as int),
            FrameStep::Failed(FrameError::Header(err)) => FrameStepView::Header(err@),
            FrameStep::Failed(FrameError::NotText) => FrameStepView::NotText,
            FrameStep::Failed(FrameError::Truncated) => FrameStepView::Truncated,
        }
    }
}

/// Where the line at `pos` ends, with its line feed if it has one.
pub open spec fn line_end(s: Seq<u8>, pos: int) -> int {
    let end = pos + peg::line_rest(s, pos);
    if end < s.len() {
        end + 1
    } else {
        end
    }
}

/// What the bytes `s` from `pos` on lead to, where `length` is the length that the header has
/// given so far and `ended` says that no more bytes come.
pub open spec fn frame_step(
    s: Seq<u8>,
    pos: int,
    length: Option<usize>,
    ended: bool,
) -> FrameStepView
    decreases s.len() - pos,
{
    let end = line_end(s, pos);
    if !ended && !(pos < end <= s.len() && s[end - 1] == 0x0a) {
        FrameStepView::More
    } else if !vstd::utf8::valid_utf8(s.subrange(pos, end)) {
        FrameStepView::NotText
    } else {
        let step = rpc::line_step(length, vstd::utf8::decode_utf8(s.subrange(pos, end)));
        match step.0 {
            HeaderStepView::More => if pos < end <= s.len() {
                frame_step(s, end, step.1, ended)
            } else {
                FrameStepView::Header(HeaderErrorView::NoHeader)
            },
            HeaderStepView::Done(header) => if end + header.content_length <= s.len() {
                FrameStepView::Message(end, end + header.content_length)
            } else if ended {
                FrameStepView::Truncated
            } else {
                FrameStepView::More
            },
            HeaderStepView::Failed(err) => FrameStepView::Header(err),
        }
    }
}

/// `std::str::from_utf8`.
///
/// The bytes as a string with exactly this UTF-8 form, where they are the UTF-8 form of one.
#[verifier::external_body]
fn str_from_utf8(bytes: &[u8]) -> (r: Option<&str>)
    ensures
        match r {
            Some(s) => vstd::utf8::valid_utf8(bytes@) && text::utf8(s@) == bytes@,
            None => !vstd::utf8::valid_utf8(bytes@),
        },
{
    std::str::from_utf8(bytes).ok()
}

/// Finds where the line at `pos` ends.
fn find_line_end(s: &[u8], pos: usize) -> (end: usize)
    requires
        pos <= s@.len(),
    ensures
        end == line_end(s@, pos as int),
        pos <= end <= s@.len(),
{
    let len: usize = s.len();
    let mut end: usize = pos;
    while end < len && s[end] != 0x0a
        invariant
            len == s@.len(),
            pos <= end <= len,
            peg::line_rest(s@, pos as int) == end - pos + peg::line_rest(s@, end as int),
        decreases len - end,
    {
        end = end + 1;
    }
    if end < len {
        end + 1
    } else {
        end
    }
}

/// Reads the message at the front of `input`. `ended` says that no more bytes come.
pub fn read_frame(input: &[u8], ended: bool) -> (step: FrameStep)
    ensures
        step@ == frame_step(input@, 0, None, ended),
        step matches FrameStep::Message(from, to) ==> from <= to <= input@.len(),
{
    let len: usize = input.len();
    let mut header = HeaderReader::new();
    let mut pos: usize = 0;
    loop
        invariant
            len == input@.len(),
            pos <= len,
            frame_step(input@, 0, None, ended) == frame_step(
                input@,
                pos as int,
                header.content_length,
                ended,
            ),
        decreases len - pos,
    {
        let end: usize = find_line_end(input, pos);
        if !ended && !(pos < end && input[end - 1] == 0x0a) {
            return FrameStep::More;
        }
        let bytes = vstd::slice::slice_subrange(input, pos, end);
        let line = match str_from_utf8(bytes) {
            Some(line) => line,
            None => {
                return FrameStep::Failed(FrameError::NotText);
            },
        };
        proof {
            vstd::utf8::encode_utf8_decode_utf8(line@);
        }
        match header.read_line(line) {
            HeaderStep::More => {
                if end == pos {
                    return FrameStep::Failed(FrameError::Header(HeaderError::NoHeader));
                }
                pos = end;
            },
            HeaderStep::Done(Header { content_length }) => {
                if content_length <= len - end {
                    return FrameStep::Message(end, end + content_length);
                }
                if ended {
                    return FrameStep::Failed(FrameError::Truncated);
                }
                return FrameStep::More;
            },
            HeaderStep::Failed(err) => {
                return FrameStep::Failed(FrameError::Header(err));
            },
        }
    }
}

/// The bytes that are sent for `message`: its header and its UTF-8 form.
pub open spec fn sent(message: Seq<char>) -> Seq<u8> {
    text::utf8(rpc::header_text(text::utf8(message).len())) + text::utf8(message)
}

/// Writes the bytes that are sent for `message`.
pub fn write_frame(message: &str) -> (bytes: Vec<u8>)
    ensures
        bytes@ == sent(message@),
{
    let header = rpc::message_header(message);
    let mut bytes: Vec<u8> = Vec::new();
    bytes.extend_from_slice(header.as_str().as_bytes());
    bytes.extend_from_slice(message.as_bytes());
    proof {
        assert(bytes@ =~= sent(message@));
    }
    bytes
}

/// Whether reading `stream` gives the bytes `body` and leaves `rest`.
pub open spec fn gives(stream: Seq<u8>, ended: bool, body: Seq<u8>, rest: Seq<u8>) -> bool {
    &&& frame_step(stream, 0, None, ended) matches FrameStepView::Message(from, to)
    &&& 0 <= from <= to <= stream.len()
    &&& stream.subrange(from, to) == body
    &&& stream.skip(to) == rest
}

/// The characters of the header of a message of `n` bytes are ASCII, and it has two lines.
pub(crate) proof fn lemma_header_bytes(n: usize)
    ensures
        vstd::utf8::is_ascii_chars(rpc::header_text(n as nat)),
        forall|i: int|
            0 <= i < rpc::length_line(n as nat).len() - 1 ==> #[trigger] rpc::length_line(
                n as nat,
            )[i] != '\n',
        rpc::length_line(n as nat).last() == '\n',
{
    reveal_strlit("Content-Length: ");
    reveal_strlit("\r\n");
    rpc::lemma_decimal(n as nat);
    let ds = rpc::decimal(n as nat);
    assert forall|i: int| 0 <= i < ds.len() implies '0' <= #[trigger] ds[i] <= '9' by {
        assert(rpc::is_digit(ds[i]));
    }
    let h = rpc::header_text(n as nat);
    let l = rpc::length_line(n as nat);
    assert forall|i: int| 0 <= i < l.len() implies '\0' <= #[trigger] l[i] <= '\u{7f}' && (i
        < l.len() - 1 ==> l[i] != '\n') by {
        if 16 <= i < 16 + ds.len() {
            assert(l[i] == ds[i - 16]);
        }
    }
    assert forall|i: int| 0 <= i < h.len() implies '\0' <= #[trigger] h[i] <= '\u{7f}' by {
        if i < l.len() {
            assert(h[i] == l[i]);
        }
    }
}

/// A line with one line feed, at its end, ends there.
pub(crate) proof fn lemma_line_end(s: Seq<u8>, pos: int, end: int)
    requires
        0 <= pos < end <= s.len(),
        s[end - 1] == 0x0a,
        forall|i: int| pos <= i < end - 1 ==> #[trigger] s[i] != 0x0a,
    ensures
        line_end(s, pos) == end,
    decreases end - pos,
{
    if pos < end - 1 {
        lemma_line_end(s, pos + 1, end);
    }
}

/// What was sent is read back, whatever follows it: the message comes out byte by byte, and
/// what follows is left.
pub proof fn sent_message_is_read(message: Seq<char>, rest: Seq<u8>, ended: bool)
    requires
        text::utf8(message).len() <= usize::MAX,
    ensures
        gives(sent(message) + rest, ended, text::utf8(message), rest),
{
    let body = text::utf8(message);
    let n = body.len() as usize;
    let s = sent(message) + rest;
    let l = rpc::length_line(n as nat);
    let h = rpc::header_text(n as nat);
    let hb = text::utf8(h);
    let crlf = "\r\n"@;
    reveal_strlit("\r\n");
    rpc::header_round_trip(n);
    lemma_header_bytes(n);
    vstd::utf8::is_ascii_chars_encode_utf8(h);
    assert forall|i: int| 0 <= i < h.len() implies #[trigger] s[i] == h[i] as u8 by {
        assert(hb[i] == h[i] as u8);
    }
    let m = l.len() as int;
    let e = h.len() as int;
    assert(e == m + 2);
    lemma_ascii_line(s, h, 0, l);
    lemma_ascii_line(s, h, m, crlf);
    assert forall|i: int| 0 <= i < m - 1 implies #[trigger] s[i] != 0x0a by {
        assert(h[i] == l[i]);
        lemma_not_line_feed(l[i]);
    }
    assert(h[m - 1] == l[m - 1]);
    assert(h[m] == crlf[0] && h[m + 1] == crlf[1]);
    assert(s[m - 1] == 0x0a && s[m] == 0x0d && s[m + 1] == 0x0a);
    lemma_line_end(s, 0, m);
    lemma_line_end(s, m, e);
    assert(frame_step(s, m, Some(n), ended) == FrameStepView::Message(e, e + n));
    assert(frame_step(s, 0, None, ended) == FrameStepView::Message(e, e + n));
    assert(s.subrange(e, e + n) =~= body);
    assert(s.skip(e + n) =~= rest);
}

pub(crate) proof fn lemma_not_line_feed(c: char)
    requires
        c != '\n',
        '\0' <= c <= '\u{7f}',
    ensures
        c as u8 != 0x0a,
{
}

/// ASCII characters that stand in a text are read back.
pub(crate) proof fn lemma_ascii_line(s: Seq<u8>, h: Seq<char>, from: int, line: Seq<char>)
    requires
        0 <= from,
        from + line.len() <= h.len() <= s.len(),
        vstd::utf8::is_ascii_chars(h),
        forall|i: int| 0 <= i < h.len() ==> #[trigger] s[i] == h[i] as u8,
        h.subrange(from, from + line.len()) =~= line,
    ensures
        vstd::utf8::valid_utf8(s.subrange(from, from + line.len())),
        vstd::utf8::decode_utf8(s.subrange(from, from + line.len())) == line,
{
    let part = s.subrange(from, from + line.len());
    assert forall|i: int| 0 <= i < line.len() implies '\0' <= #[trigger] line[i] <= '\u{7f}' by {
        assert(h.subrange(from, from + line.len())[i] == h[from + i]);
    }
    assert(vstd::utf8::is_ascii_chars(line));
    vstd::utf8::is_ascii_chars_encode_utf8(line);
    let b = text::utf8(line);
    assert forall|i: int| 0 <= i < line.len() implies part[i] == b[i] by {
        assert(h.subrange(from, from + line.len())[i] == h[from + i]);
        assert(b[i] == line[i] as u8);
        assert(s[from + i] == h[from + i] as u8);
    }
    assert(part =~= b);
    vstd::utf8::encode_utf8_valid_utf8(line);
    vstd::utf8::encode_utf8_decode_utf8(line);
}

/// Two messages that were sent one after the other come out one after the other, each byte by
/// byte, and then the stream has no message.
pub proof fn messages_come_back(m1: Seq<char>, m2: Seq<char>)
    requires
        text::utf8(m1).len() <= usize::MAX,
        text::utf8(m2).len() <= usize::MAX,
    ensures
        gives(sent(m1) + sent(m2), true, text::utf8(m1), sent(m2)),
        gives(sent(m2), true, text::utf8(m2), Seq::empty()),
        frame_step(Seq::empty(), 0, None, true) == FrameStepView::Header(HeaderErrorView::NoHeader),
{
    sent_message_is_read(m1, sent(m2), true);
    sent_message_is_read(m2, Seq::empty(), true);
    assert(sent(m2) + Seq::<u8>::empty() =~= sent(m2));
    let none = Seq::<u8>::empty();
    assert(none.subrange(0, 0) =~= none);
    assert(vstd::utf8::decode_utf8(none).len() == 0);
}

/// The message that a stream which has ended gives first, and what it leaves, where `read` says
/// what the body of a message is read as.
pub open spec fn received<V>(stream: Seq<u8>, read: spec_fn(Seq<u8>) -> Forms<V>) -> Option<
    (Message<V>, Seq<u8>),
> {
    match frame_step(stream, 0, None, true) {
        FrameStepView::Message(from, to) => match read(stream.subrange(from, to)).message() {
            Some(m) => Some((m, stream.skip(to))),
            None => None,
        },
        _ => None,
    }
}

/// Two messages that were sent one after the other, as the texts `t1` and `t2`, are received one
/// after the other, each as the request, the response or the notification that it was, with its
/// fields. Then nothing is received. What JSON has to do with it is only that the body of each
/// message is read back.
pub proof fn messages_are_received_as_sent<V>(
    m1: Message<V>,
    t1: Seq<char>,
    m2: Message<V>,
    t2: Seq<char>,
    read: spec_fn(Seq<u8>) -> Forms<V>,
)
    requires
        text::utf8(t1).len() <= usize::MAX,
        text::utf8(t2).len() <= usize::MAX,
        read(text::utf8(t1)).reads_back(m1),
        read(text::utf8(t2)).reads_back(m2),
    ensures
        received(sent(t1) + sent(t2), read) == Some((m1, sent(t2))),
        received(sent(t2), read) == Some((m2, Seq::<u8>::empty())),
        received(Seq::empty(), read) is None,
{
    messages_come_back(t1, t2);
    protocol::message_keeps_its_form(m1, read(text::utf8(t1)));
    protocol::message_keeps_its_form(m2, read(text::utf8(t2)));
}

} // verus!
