//! What goes over the wire, and what becomes of it.
use vstd::prelude::*;

use crate::clangd;
use crate::clangd::LogLevel;
use crate::frame;
use crate::frame::FrameStepView;
use crate::moved;
use crate::peg;
use crate::protocol;
use crate::protocol::{ErrorCodes, Forms, Header, Message};
use crate::rpc;
use crate::rpc::{HeaderErrorView, HeaderStepView};
use crate::server;
use crate::server::{ServerAction, ServerState};
use crate::text;

verus! {

/// The characters that are white space.
pub open spec fn white_space() -> Seq<char> {
    seq![
        '\u{9}', '\u{a}', '\u{b}', '\u{c}', '\u{d}', '\u{20}', '\u{85}', '\u{a0}', '\u{1680}',
        '\u{2000}', '\u{2001}', '\u{2002}', '\u{2003}', '\u{2004}', '\u{2005}', '\u{2006}',
        '\u{2007}', '\u{2008}', '\u{2009}', '\u{200a}', '\u{2028}', '\u{2029}', '\u{202f}',
        '\u{205f}', '\u{3000}',
    ]
}

/// A character is white space exactly if it is one of these.
pub proof fn white_space_is_listed(c: char)
    ensures
        rpc::is_white(c) <==> white_space().contains(c),
{
    let w = white_space();
    assert(c == '\u{9}' ==> w[0] == c);
    assert(c == '\u{a}' ==> w[1] == c);
    assert(c == '\u{b}' ==> w[2] == c);
    assert(c == '\u{c}' ==> w[3] == c);
    assert(c == '\u{d}' ==> w[4] == c);
    assert(c == '\u{20}' ==> w[5] == c);
    assert(c == '\u{85}' ==> w[6] == c);
    assert(c == '\u{a0}' ==> w[7] == c);
    assert(c == '\u{1680}' ==> w[8] == c);
    assert(c == '\u{2000}' ==> w[9] == c);
    assert(c == '\u{2001}' ==> w[10] == c);
    assert(c == '\u{2002}' ==> w[11] == c);
    assert(c == '\u{2003}' ==> w[12] == c);
    assert(c == '\u{2004}' ==> w[13] == c);
    assert(c == '\u{2005}' ==> w[14] == c);
    assert(c == '\u{2006}' ==> w[15] == c);
    assert(c == '\u{2007}' ==> w[16] == c);
    assert(c == '\u{2008}' ==> w[17] == c);
    assert(c == '\u{2009}' ==> w[18] == c);
    assert(c == '\u{200a}' ==> w[19] == c);
    assert(c == '\u{2028}' ==> w[20] == c);
    assert(c == '\u{2029}' ==> w[21] == c);
    assert(c == '\u{202f}' ==> w[22] == c);
    assert(c == '\u{205f}' ==> w[23] == c);
    assert(c == '\u{3000}' ==> w[24] == c);
    if w.contains(c) {
        let i = choose|i: int| 0 <= i < w.len() && w[i] == c;
        assert(rpc::is_white(w[i]));
    }
}

/// Whether all of `chars` are white space.
pub open spec fn all_white(chars: Seq<char>) -> bool {
    forall|i: int| 0 <= i < chars.len() ==> rpc::is_white(#[trigger] chars[i])
}

/// Whether `chars` is `inner` with white space around it, and `inner` neither starts nor ends
/// with white space.
pub open spec fn is_inside_white(chars: Seq<char>, inner: Seq<char>) -> bool {
    &&& exists|a: Seq<char>, b: Seq<char>|
        chars == #[trigger] (a + inner + b) && all_white(a) && all_white(b)
    &&& inner.len() > 0 ==> !rpc::is_white(inner[0]) && !rpc::is_white(inner.last())
}

proof fn lemma_front(chars: Seq<char>) -> (a: Seq<char>)
    ensures
        chars == a + rpc::trimmed_front(chars),
        all_white(a),
        rpc::trimmed_front(chars).len() > 0 ==> !rpc::is_white(rpc::trimmed_front(chars)[0]),
    decreases chars.len(),
{
    if chars.len() > 0 && rpc::is_white(chars[0]) {
        let b = lemma_front(chars.skip(1));
        let a = seq![chars[0]] + b;
        assert(chars =~= seq![chars[0]] + chars.skip(1));
        assert(chars =~= a + rpc::trimmed_front(chars));
        a
    } else {
        assert(chars =~= Seq::<char>::empty() + chars);
        Seq::empty()
    }
}

proof fn lemma_back(chars: Seq<char>) -> (b: Seq<char>)
    ensures
        chars == rpc::trimmed_back(chars) + b,
        all_white(b),
        rpc::trimmed_back(chars).len() > 0 ==> !rpc::is_white(rpc::trimmed_back(chars).last())
            && rpc::trimmed_back(chars)[0] == chars[0],
    decreases chars.len(),
{
    if chars.len() > 0 && rpc::is_white(chars.last()) {
        let a = lemma_back(chars.drop_last());
        let b = a.push(chars.last());
        assert(chars =~= chars.drop_last().push(chars.last()));
        assert(chars =~= rpc::trimmed_back(chars) + b);
        b
    } else {
        assert(chars =~= chars + Seq::<char>::empty());
        Seq::empty()
    }
}

/// Trimming takes white space off both ends, all of it, and nothing else.
pub proof fn trimmed_is_inside_white_space(chars: Seq<char>)
    ensures
        is_inside_white(chars, rpc::trimmed(chars)),
{
    let a = lemma_front(chars);
    let front = rpc::trimmed_front(chars);
    let b = lemma_back(front);
    assert(chars =~= a + rpc::trimmed(chars) + b);
}

proof fn lemma_zero(ds: Seq<char>)
    ensures
        rpc::digits_value(seq!['0'] + ds) == rpc::digits_value(ds),
    decreases ds.len(),
{
    let all = seq!['0'] + ds;
    if ds.len() == 0 {
        assert(all.drop_last() =~= Seq::<char>::empty());
        assert(rpc::digits_value(Seq::<char>::empty()) == 0);
    } else {
        assert(all.drop_last() =~= seq!['0'] + ds.drop_last());
        lemma_zero(ds.drop_last());
    }
}

/// A number is read back from its decimal digits, also behind a plus sign. A zero before digits
/// changes nothing. What is not digits, with at most a plus sign before them, is no number.
pub proof fn number_is_what_was_written(n: nat, chars: Seq<char>)
    ensures
        rpc::number(rpc::decimal(n)) == Some(n),
        rpc::number(seq!['+'] + rpc::decimal(n)) == Some(n),
        chars.len() > 0 && rpc::all_digits(chars) ==> rpc::number(chars) is Some && rpc::number(
            seq!['0'] + chars,
        ) == rpc::number(chars),
        rpc::number(chars) is Some ==> chars.len() > 0 && (rpc::all_digits(chars) || (chars[0]
            == '+' && chars.len() > 1 && rpc::all_digits(chars.skip(1)))),
{
    let ds = rpc::decimal(n);
    rpc::lemma_decimal(n);
    assert(rpc::is_digit(ds[0]));
    assert((seq!['+'] + ds).skip(1) =~= ds);
    if chars.len() > 0 && rpc::all_digits(chars) {
        let all = seq!['0'] + chars;
        lemma_zero(chars);
        assert(rpc::is_digit(chars[0]));
        assert forall|i: int| 0 <= i < all.len() implies rpc::is_digit(#[trigger] all[i]) by {
            if i > 0 {
                assert(rpc::is_digit(chars[i - 1]));
            }
        }
    }
}

/// Two characters are the same but for their case exactly if they are the same, or one is a
/// capital letter and the other stands 32 places behind it.
pub proof fn case_of_letters_does_not_matter(a: Seq<char>, b: Seq<char>)
    ensures
        rpc::same_but_case(a, b) <==> a.len() == b.len() && forall|i: int|
            0 <= i < a.len() ==> same_letter(#[trigger] a[i], b[i]),
{
    if rpc::same_but_case(a, b) {
        assert forall|i: int| 0 <= i < a.len() implies same_letter(#[trigger] a[i], b[i]) by {
            assert(rpc::ascii_lower(a[i]) == rpc::ascii_lower(b[i]));
        }
    }
}

/// Whether `a` and `b` are the same character, or one is a capital letter from `A` to `Z` and the
/// other stands 32 places behind it.
pub open spec fn same_letter(a: char, b: char) -> bool {
    ||| a == b
    ||| 'A' <= a <= 'Z' && b as u32 == a as u32 + 32
    ||| 'A' <= b <= 'Z' && a as u32 == b as u32 + 32
}

proof fn lemma_colon(name: Seq<char>, value: Seq<char>)
    requires
        !name.contains(':'),
    ensures
        rpc::colon(name + seq![':'] + value) == name.len(),
    decreases name.len(),
{
    let all = name + seq![':'] + value;
    if name.len() > 0 {
        let rest = name.skip(1);
        assert(name.contains(name[0]));
        assert(!rest.contains(':')) by {
            if rest.contains(':') {
                let i = choose|i: int| 0 <= i < rest.len() && rest[i] == ':';
                assert(name[i + 1] == ':');
            }
        }
        assert(all.skip(1) =~= rest + seq![':'] + value);
        lemma_colon(rest, value);
    }
}

proof fn lemma_no_colon(line: Seq<char>)
    requires
        !line.contains(':'),
    ensures
        rpc::colon(line) == line.len(),
    decreases line.len(),
{
    if line.len() > 0 {
        let rest = line.skip(1);
        assert(line.contains(line[0]));
        assert(!rest.contains(':')) by {
            if rest.contains(':') {
                let i = choose|i: int| 0 <= i < rest.len() && rest[i] == ':';
                assert(line[i + 1] == ':');
            }
        }
        lemma_no_colon(rest);
    }
}

/// The name of the field with the length of a message.
pub open spec fn length_field() -> Seq<char> {
    seq!['c', 'o', 'n', 't', 'e', 'n', 't', '-', 'l', 'e', 'n', 'g', 't', 'h']
}

/// A line of a header is a name, a colon and a value. The field with the length gives the
/// number in its value, once, and fails without a number that fits. Every other field leaves the
/// length as it is.
pub proof fn header_line_is_a_field(length: Option<usize>, name: Seq<char>, value: Seq<char>)
    requires
        !name.contains(':'),
    ensures
        ({
            let step = rpc::line_step(length, name + seq![':'] + value);
            if !rpc::same_but_case(name, length_field()) {
                step.0 == HeaderStepView::More && step.1 == length
            } else {
                match (length, rpc::number(rpc::trimmed(value))) {
                    (Some(_), _) => step.0 == HeaderStepView::Failed(
                        HeaderErrorView::MultipleLengths,
                    ),
                    (None, Some(n)) => if n <= usize::MAX {
                        step.0 == HeaderStepView::More && (step.1 matches Some(m) && m == n)
                    } else {
                        step.0 == HeaderStepView::Failed(HeaderErrorView::InvalidLength)
                    },
                    (None, None) => step.0 == HeaderStepView::Failed(
                        HeaderErrorView::InvalidLength,
                    ),
                }
            }
        }),
{
    reveal_strlit("content-length");
    reveal_strlit("\r\n");
    assert("content-length"@ =~= length_field());
    let line = name + seq![':'] + value;
    let k = name.len() as int;
    lemma_colon(name, value);
    assert(line[k] == ':');
    assert(line != "\r\n"@);
    assert(line.take(k) =~= name);
    assert(line.skip(k + 1) =~= value);
}

/// The empty line ends a header, with the length that was given. A line without a colon cannot
/// be read, and the end of the input is no header.
pub proof fn other_header_lines(length: Option<usize>, line: Seq<char>)
    requires
        !line.contains(':'),
    ensures
        ({
            let step = rpc::line_step(length, line);
            if line.len() == 0 {
                step.0 == HeaderStepView::Failed(HeaderErrorView::NoHeader)
            } else if line == seq!['\r', '\n'] {
                match length {
                    Some(n) => step.0 == HeaderStepView::Done(Header { content_length: n }),
                    None => step.0 == HeaderStepView::Failed(HeaderErrorView::MissingLength),
                }
            } else {
                step.0 == HeaderStepView::Failed(HeaderErrorView::InvalidField(line))
            }
        }),
{
    reveal_strlit("\r\n");
    assert("\r\n"@ =~= seq!['\r', '\n']);
    lemma_no_colon(line);
}

/// A header says how many bytes follow, in this form.
pub proof fn header_is_written_like_this(n: nat)
    ensures
        rpc::header_text(n) == seq![
            'C', 'o', 'n', 't', 'e', 'n', 't', '-', 'L', 'e', 'n', 'g', 't', 'h', ':', ' ',
        ] + rpc::decimal(n) + seq!['\r', '\n', '\r', '\n'],
{
    reveal_strlit("Content-Length: ");
    reveal_strlit("\r\n");
    assert(rpc::header_text(n) =~= seq![
        'C', 'o', 'n', 't', 'e', 'n', 't', '-', 'L', 'e', 'n', 'g', 't', 'h', ':', ' ',
    ] + rpc::decimal(n) + seq!['\r', '\n', '\r', '\n']);
}

/// `step`, `k` bytes later.
pub open spec fn later(step: FrameStepView, k: nat) -> FrameStepView {
    match step {
        FrameStepView::Message(from, to) => FrameStepView::Message(from + k, to + k),
        _ => step,
    }
}

proof fn lemma_line_fits(s: Seq<u8>, pos: int)
    requires
        0 <= pos <= s.len(),
    ensures
        pos + peg::line_rest(s, pos) <= s.len(),
    decreases s.len() - pos,
{
    if pos < s.len() {
        lemma_line_fits(s, pos + 1);
    }
}

proof fn lemma_frame_moved(
    s: Seq<u8>,
    t: Seq<u8>,
    k: nat,
    pos: int,
    length: Option<usize>,
    ended: bool,
)
    requires
        moved::is_behind(s, t, k),
        0 <= pos <= s.len(),
    ensures
        frame::frame_step(t, pos + k, length, ended) == later(
            frame::frame_step(s, pos, length, ended),
            k,
        ),
    decreases s.len() - pos,
{
    moved::lemma_line(s, t, k, pos);
    lemma_line_fits(s, pos);
    let end = frame::line_end(s, pos);
    assert(frame::line_end(t, pos + k) == end + k);
    assert(t.subrange(pos + k, end + k) =~= s.subrange(pos, end));
    if pos < end {
        assert(s[end - 1] == t[end - 1 + k]);
        let step = rpc::line_step(length, vstd::utf8::decode_utf8(s.subrange(pos, end)));
        lemma_frame_moved(s, t, k, end, step.1, ended);
    }
}

/// A line of a header that leads on is passed over, and what it gives is kept: the rest is read
/// as it would be without that line.
pub proof fn header_lines_are_read_one_by_one(
    line: Seq<char>,
    rest: Seq<u8>,
    length: Option<usize>,
    ended: bool,
)
    requires
        text::utf8(line).len() > 0,
        text::utf8(line).last() == 0x0a,
        forall|i: int| 0 <= i < text::utf8(line).len() - 1
            ==> #[trigger] text::utf8(line)[i] != 0x0a,
        rpc::line_step(length, line).0 == HeaderStepView::More,
    ensures
        frame::frame_step(text::utf8(line) + rest, 0, length, ended) == later(
            frame::frame_step(rest, 0, rpc::line_step(length, line).1, ended),
            text::utf8(line).len(),
        ),
{
    let b = text::utf8(line);
    let s = b + rest;
    let k = b.len();
    assert forall|i: int| 0 <= i < k - 1 implies #[trigger] s[i] != 0x0a by {
        assert(s[i] == b[i]);
    }
    assert(s[k - 1] == b[k - 1]);
    frame::lemma_line_end(s, 0, k as int);
    assert(s.subrange(0, k as int) =~= b);
    vstd::utf8::encode_utf8_valid_utf8(line);
    vstd::utf8::encode_utf8_decode_utf8(line);
    assert(moved::is_behind(rest, s, k));
    lemma_frame_moved(rest, s, k, 0, rpc::line_step(length, line).1, ended);
}

proof fn lemma_open_line(s: Seq<u8>, pos: int)
    requires
        0 <= pos <= s.len(),
        forall|i: int| pos <= i < s.len() ==> #[trigger] s[i] != 0x0a,
    ensures
        frame::line_end(s, pos) == s.len(),
    decreases s.len() - pos,
{
    if pos < s.len() {
        lemma_open_line(s, pos + 1);
    }
}

/// While only a part of a message has come and more can come, more is waited for. Where the
/// input ends inside the text of the message, the message is cut off.
pub proof fn part_of_a_message_is_waited_for(message: Seq<char>, k: int)
    requires
        text::utf8(message).len() <= usize::MAX,
        0 <= k < frame::sent(message).len(),
    ensures
        frame::frame_step(frame::sent(message).take(k), 0, None, false) == FrameStepView::More,
        frame::sent(message).len() - text::utf8(message).len() <= k ==> frame::frame_step(
            frame::sent(message).take(k),
            0,
            None,
            true,
        ) == FrameStepView::Truncated,
{
    let body = text::utf8(message);
    let n = body.len() as usize;
    let all = frame::sent(message);
    let s = all.take(k);
    let l = rpc::length_line(n as nat);
    let h = rpc::header_text(n as nat);
    let hb = text::utf8(h);
    let crlf = "\r\n"@;
    reveal_strlit("\r\n");
    rpc::header_round_trip(n);
    frame::lemma_header_bytes(n);
    vstd::utf8::is_ascii_chars_encode_utf8(h);
    let m = l.len() as int;
    let e = h.len() as int;
    assert(e == m + 2);
    assert forall|i: int| 0 <= i < h.len() implies #[trigger] all[i] == h[i] as u8 by {
        assert(hb[i] == h[i] as u8);
    }
    assert forall|i: int| 0 <= i < m - 1 && i < k implies #[trigger] s[i] != 0x0a by {
        assert(s[i] == all[i]);
        assert(h[i] == l[i]);
        frame::lemma_not_line_feed(l[i]);
    }
    assert(h[m - 1] == l[m - 1] && h[m] == crlf[0] && h[m + 1] == crlf[1]);
    if k < m {
        lemma_open_line(s, 0);
    } else {
        assert(s[m - 1] == all[m - 1]);
        frame::lemma_line_end(s, 0, m);
        assert forall|i: int| 0 <= i < l.len() implies #[trigger] s[i] == l[i] as u8 by {
            assert(s[i] == all[i]);
            assert(h[i] == l[i]);
        }
        assert(vstd::utf8::is_ascii_chars(l)) by {
            assert forall|i: int| 0 <= i < l.len() implies '\0' <= #[trigger] l[i] <= '\u{7f}' by {
                assert(h[i] == l[i]);
            }
        }
        assert(l.subrange(0, m) =~= l);
        frame::lemma_ascii_line(s, l, 0, l);
        if k < e {
            assert forall|i: int| m <= i < s.len() implies #[trigger] s[i] != 0x0a by {
                assert(s[i] == all[i]);
            }
            lemma_open_line(s, m);
            assert(s.len() > m ==> s[s.len() - 1] != 0x0a);
            assert(frame::frame_step(s, m, Some(n), false) == FrameStepView::More);
        } else {
            assert(s[m] == all[m] && s[m + 1] == all[m + 1]);
            frame::lemma_line_end(s, m, e);
            assert forall|i: int| 0 <= i < h.len() implies #[trigger] s[i] == h[i] as u8 by {
                assert(s[i] == all[i]);
            }
            assert(h.subrange(m, e) =~= crlf);
            frame::lemma_ascii_line(s, h, m, crlf);
            assert(frame::frame_step(s, m, Some(n), false) == FrameStepView::More);
            assert(frame::frame_step(s, m, Some(n), true) == FrameStepView::Truncated);
            assert(frame::frame_step(s, 0, None, true) == FrameStepView::Truncated);
        }
        assert(frame::frame_step(s, 0, None, false) == FrameStepView::More);
    }
}

/// The methods that start and end the talk with a client are those of the protocol.
pub proof fn methods_are_those_of_the_protocol()
    ensures
        server::INITIALIZE@ == seq!['i', 'n', 'i', 't', 'i', 'a', 'l', 'i', 'z', 'e'],
        server::INITIALIZED@ == server::INITIALIZE@.push('d'),
        server::SHUTDOWN@ == seq!['s', 'h', 'u', 't', 'd', 'o', 'w', 'n'],
        server::EXIT@ == seq!['e', 'x', 'i', 't'],
{
    reveal_strlit("initialize");
    reveal_strlit("initialized");
    reveal_strlit("shutdown");
    reveal_strlit("exit");
    assert("initialize"@ =~= seq!['i', 'n', 'i', 't', 'i', 'a', 'l', 'i', 'z', 'e']);
    assert("initialized"@ =~= "initialize"@.push('d'));
    assert("shutdown"@ =~= seq!['s', 'h', 'u', 't', 'd', 'o', 'w', 'n']);
    assert("exit"@ =~= seq!['e', 'x', 'i', 't']);
}

/// The request that announces the end is confirmed under its id, and the server ends on the
/// notification for that. Every other message is handed on as it is, and does not change
/// whether the end was announced.
pub proof fn other_messages_are_handed_on<V>(state: ServerState, message: Message<V>)
    ensures
        ({
            let after = server::next_state(state, message);
            let action = server::action(state, message);
            match message {
                Message::Request(request) => if request.method@ == seq![
                    's', 'h', 'u', 't', 'd', 'o', 'w', 'n',
                ] {
                    after == ServerState::ShuttingDown && action
                        == ServerAction::<V>::ConfirmShutdown(request.id)
                } else {
                    after == state && action == ServerAction::Forward(message)
                },
                Message::Response(_) => after == state && action == ServerAction::Forward(message),
                Message::Notification(notification) => if notification.method@ == seq![
                    'e', 'x', 'i', 't',
                ] {
                    action is Exit
                } else {
                    after == state && action == ServerAction::Forward(message)
                },
            }
        }),
{
    reveal_strlit("shutdown");
    reveal_strlit("exit");
    assert("shutdown"@ =~= seq!['s', 'h', 'u', 't', 'd', 'o', 'w', 'n']);
    assert("exit"@ =~= seq!['e', 'x', 'i', 't']);
}

/// The errors have the numbers that JSON-RPC and the protocol give them.
pub proof fn codes_are_those_of_the_protocol(code: ErrorCodes)
    ensures
        protocol::code_of(code) == -32700 <==> code == ErrorCodes::ParseError,
        protocol::code_of(code) == -32600 <==> code == ErrorCodes::InvalidRequest,
        protocol::code_of(code) == -32601 <==> code == ErrorCodes::MethodNotFound,
        protocol::code_of(code) == -32602 <==> code == ErrorCodes::InvalidParams,
        protocol::code_of(code) == -32603 <==> code == ErrorCodes::InternalError,
        protocol::code_of(code) == -32099 <==> code == ErrorCodes::serverErrorStart,
        protocol::code_of(code) == -32000 <==> code == ErrorCodes::serverErrorEnd,
        protocol::code_of(code) == -32002 <==> code == ErrorCodes::ServerNotInitialized,
        protocol::code_of(code) == -32001 <==> code == ErrorCodes::UnknownErrorCode,
        protocol::code_of(code) == -32800 <==> code == ErrorCodes::RequestCancelled,
        protocol::code_of(code) == -32801 <==> code == ErrorCodes::ContentModified,
{
}

/// A body that can be read in no form is no message. What it can be read as only in one form is
/// that message.
pub proof fn only_form_counts<V>(forms: Forms<V>)
    ensures
        forms.message() is None <==> forms.request is None && forms.response is None
            && forms.notification is None,
        forms.request is None && forms.response is None ==> (forms.notification matches Some(m)
            ==> forms.message() == Some(Message::Notification(m))),
        forms.request is None && forms.notification is None ==> (forms.response matches Some(m)
            ==> forms.message() == Some(Message::Response(m))),
        forms.response is None && forms.notification is None ==> (forms.request matches Some(m)
            ==> forms.message() == Some(Message::Request(m))),
{
}

/// What can be read in more than one way is a request rather than a response, and a response
/// rather than a notification.
pub proof fn first_form_counts<V>(forms: Forms<V>)
    ensures
        forms.request is Some ==> forms.message() == Some(Message::Request(forms.request->0)),
        forms.request is None && forms.response is Some ==> forms.message() == Some(
            Message::Response(forms.response->0),
        ),
        forms.message() is None ==> forms.request is None && forms.response is None
            && forms.notification is None,
{
}

/// A message without parameters is reported with its method.
pub proof fn missing_parameters_are_reported(method: Seq<char>)
    ensures
        protocol::no_parameters(method) == seq![
            'N', 'o', ' ', 'p', 'a', 'r', 'a', 'm', 'e', 't', 'e', 'r', 's', ' ', 'f', 'o', 'r',
            ' ',
        ] + method,
{
    reveal_strlit("No parameters for ");
    assert("No parameters for "@ =~= seq![
        'N', 'o', ' ', 'p', 'a', 'r', 'a', 'm', 'e', 't', 'e', 'r', 's', ' ', 'f', 'o', 'r', ' ',
    ]);
}

/// The level of a line that clangd writes is told by its first character, and by nothing else.
pub proof fn level_by_the_first_character(line: Seq<char>)
    ensures
        clangd::line_level(line) == Some(LogLevel::Error) <==> line.len() > 0 && line[0] == 'E',
        clangd::line_level(line) == Some(LogLevel::Warn) <==> line.len() > 0 && line[0] == 'W',
        clangd::line_level(line) == Some(LogLevel::Info) <==> line.len() > 0 && line[0] == 'I',
        clangd::line_level(line) == Some(LogLevel::Debug) <==> line.len() > 0 && line[0] == 'D',
        clangd::line_level(line) == Some(LogLevel::Trace) <==> line.len() > 0 && line[0] == 'T',
{
}

/// Errors come first, then warnings, information, debugging and tracing.
pub proof fn levels_are_ordered(a: LogLevel, b: LogLevel)
    ensures
        clangd::level_rank(LogLevel::Error) <= clangd::level_rank(a) <= clangd::level_rank(
            LogLevel::Trace,
        ),
        clangd::level_rank(LogLevel::Error) < clangd::level_rank(LogLevel::Warn)
            < clangd::level_rank(LogLevel::Info) < clangd::level_rank(LogLevel::Debug)
            < clangd::level_rank(LogLevel::Trace),
        clangd::level_rank(a) == clangd::level_rank(b) ==> a == b,
{
}

} // verus!
