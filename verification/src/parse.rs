//! Reading the wire format.
//!
//! The format is defined by `spec_encode`. This module reads it from left
//! to right: `parse_message` says in the language of specifications what
//! the reader finds, `read_message` is the reader, and the two lemmas at
//! the end show that the reader finds a message exactly in the encodings
//! of messages.

use vstd::prelude::*;
use vstd::string::StringSliceAdditionalSpecFns;
use vstd::utf8::decode_utf8;
use vstd::utf8::encode_utf8;
use vstd::utf8::valid_utf8;
use crate::message::Message;
use crate::message::MessageType;
use crate::message::MessageView;
use crate::state::State;
use crate::wire::decimal;
use crate::wire::escape;
use crate::wire::escape_byte;
use crate::wire::message_type_name;
use crate::wire::message_type_token;
use crate::wire::spec_encode;
use crate::wire::state_name;
use crate::wire::state_token;
use crate::wire::BACKSLASH;
use crate::wire::QUOTE;

verus! {

/// Whether `b` is one of the bytes `0` to `9`.
pub(crate) open spec fn is_digit(b: u8) -> bool {
    0x30 <= b <= 0x39
}

/// Whether `text` stands in `s` at index `at`.
pub(crate) open spec fn stands_at(s: Seq<u8>, at: int, text: Seq<u8>) -> bool {
    0 <= at && at + text.len() <= s.len() && s.subrange(at, at + text.len()) == text
}

/// The index behind the run of digits that starts at `at`.
pub(crate) closed spec fn digits_end(s: Seq<u8>, at: int) -> int
    decreases s.len() - at,
{
    if 0 <= at < s.len() && is_digit(s[at]) {
        digits_end(s, at + 1)
    } else {
        at
    }
}

/// The number that a string of digits denotes.
pub(crate) closed spec fn digits_value(d: Seq<u8>) -> nat
    decreases d.len(),
{
    if d.len() == 0 {
        0
    } else {
        digits_value(d.drop_last()) * 10 + (d.last() - 0x30) as nat
    }
}

/// The number written at `at` and the index behind it: a run of digits
/// without a leading zero whose value fits in a `u64`.
pub(crate) closed spec fn parse_number(s: Seq<u8>, at: int) -> Option<(u64, int)> {
    let end = digits_end(s, at);
    let digits = s.subrange(at, end);
    if 0 <= at < end && (s[at] != 0x30 || end == at + 1) && digits_value(digits) <= u64::MAX {
        Some((digits_value(digits) as u64, end))
    } else {
        None
    }
}

/// The message type whose token stands at `at` and the index behind it.
pub(crate) closed spec fn parse_message_type(s: Seq<u8>, at: int) -> Option<(MessageType, int)> {
    if stands_at(s, at, message_type_token(MessageType::Proposal)) {
        Some((MessageType::Proposal, at + message_type_token(MessageType::Proposal).len()))
    } else if stands_at(s, at, message_type_token(MessageType::Acknowledgment)) {
        Some(
            (
                MessageType::Acknowledgment,
                at + message_type_token(MessageType::Acknowledgment).len(),
            ),
        )
    } else if stands_at(s, at, message_type_token(MessageType::Commit)) {
        Some((MessageType::Commit, at + message_type_token(MessageType::Commit).len()))
    } else {
        None
    }
}

/// The state whose token stands at `at` and the index behind it.
pub(crate) closed spec fn parse_state(s: Seq<u8>, at: int) -> Option<(State, int)> {
    if stands_at(s, at, state_token(State::Init)) {
        Some((State::Init, at + state_token(State::Init).len()))
    } else if stands_at(s, at, state_token(State::Running)) {
        Some((State::Running, at + state_token(State::Running).len()))
    } else if stands_at(s, at, state_token(State::Stopped)) {
        Some((State::Stopped, at + state_token(State::Stopped).len()))
    } else {
        None
    }
}

/// The byte that the escaped form at `at` stands for, and the width of
/// that form. Only the form that [`escape_byte`] writes is read.
pub(crate) closed spec fn parse_escaped_byte(s: Seq<u8>, at: int) -> Option<(u8, int)> {
    if at < 0 || at >= s.len() {
        None
    } else if s[at] == BACKSLASH {
        if at + 1 >= s.len() {
            None
        } else if s[at + 1] == 0x22 || s[at + 1] == 0x5c {
            Some((s[at + 1], 2))
        } else if s[at + 1] == 0x62 {
            Some((0x08u8, 2))
        } else if s[at + 1] == 0x74 {
            Some((0x09u8, 2))
        } else if s[at + 1] == 0x6e {
            Some((0x0au8, 2))
        } else if s[at + 1] == 0x66 {
            Some((0x0cu8, 2))
        } else if s[at + 1] == 0x72 {
            Some((0x0du8, 2))
        } else if s[at + 1] == 0x75 && at + 5 < s.len() && stands_at(
            s,
            at,
            escape_byte(short_hex_value(s[at + 4], s[at + 5])),
        ) {
            Some((short_hex_value(s[at + 4], s[at + 5]), 6))
        } else {
            None
        }
    } else if s[at] < 0x20 || s[at] == QUOTE {
        None
    } else {
        Some((s[at], 1))
    }
}

/// The value below `0x20` that two hexadecimal digits denote, or `0xff`
/// where they denote none.
pub(crate) open spec fn short_hex_value(high: u8, low: u8) -> u8 {
    if (high == 0x30 || high == 0x31) && 0x30 <= low <= 0x39 {
        ((high - 0x30) * 16 + (low - 0x30)) as u8
    } else if (high == 0x30 || high == 0x31) && 0x61 <= low <= 0x66 {
        ((high - 0x30) * 16 + (low - 0x57)) as u8
    } else {
        0xffu8
    }
}

/// The bytes of the string whose escaped form starts at `at`, and the
/// index of the quote that closes it.
pub(crate) closed spec fn parse_escaped(s: Seq<u8>, at: int) -> Option<(Seq<u8>, int)>
    decreases s.len() - at,
{
    if at < 0 || at >= s.len() {
        None
    } else if s[at] == QUOTE {
        Some((Seq::empty(), at))
    } else {
        match parse_escaped_byte(s, at) {
            Some((b, width)) => {
                if width <= 0 {
                    None
                } else {
                    match parse_escaped(s, at + width) {
                        Some((rest, close)) => Some((seq![b] + rest, close)),
                        None => None,
                    }
                }
            },
            None => None,
        }
    }
}

/// The sender that the first member names, and the index behind it.
pub(crate) closed spec fn parse_sender_member(s: Seq<u8>) -> Option<(u64, int)> {
    let key = "{\"sender_id\":".spec_bytes();
    if stands_at(s, 0, key) {
        parse_number(s, key.len() as int)
    } else {
        None
    }
}

/// The message type that the member at `at` names, and the index behind
/// its token.
pub(crate) closed spec fn parse_type_member(s: Seq<u8>, at: int) -> Option<(MessageType, int)> {
    let key = ",\"message_type\":\"".spec_bytes();
    if stands_at(s, at, key) {
        parse_message_type(s, at + key.len())
    } else {
        None
    }
}

/// The state that the member at `at` names, and the index behind its
/// token.
pub(crate) closed spec fn parse_state_member(s: Seq<u8>, at: int) -> Option<(State, int)> {
    let key = "\",\"proposed_state\":\"".spec_bytes();
    if stands_at(s, at, key) {
        parse_state(s, at + key.len())
    } else {
        None
    }
}

/// The bytes of the identifier that the member at `at` holds, and the
/// index of the quote that closes it.
pub(crate) closed spec fn parse_id_member(s: Seq<u8>, at: int) -> Option<(Seq<u8>, int)> {
    let key = "\",\"proposal_id\":\"".spec_bytes();
    if stands_at(s, at, key) {
        parse_escaped(s, at + key.len())
    } else {
        None
    }
}

/// Whether the object ends at `at`: the closing quote and brace stand
/// there, and nothing follows.
pub(crate) closed spec fn ends_at(s: Seq<u8>, at: int) -> bool {
    let close = "\"}".spec_bytes();
    stands_at(s, at, close) && at + close.len() == s.len()
}

/// The message that `s` stands for, read from left to right.
pub(crate) closed spec fn parse_message(s: Seq<u8>) -> Option<MessageView> {
    match parse_sender_member(s) {
        None => None,
        Some((sender_id, at_type)) => match parse_type_member(s, at_type) {
            None => None,
            Some((message_type, at_state)) => match parse_state_member(s, at_state) {
                None => None,
                Some((proposed_state, at_id)) => match parse_id_member(s, at_id) {
                    None => None,
                    Some((id, at_close)) => {
                        if ends_at(s, at_close) && valid_utf8(id) {
                            Some(
                                MessageView {
                                    sender_id,
                                    message_type,
                                    proposed_state,
                                    proposal_id: decode_utf8(id),
                                },
                            )
                        } else {
                            None
                        }
                    },
                },
            },
        },
    }
}

/// `String::from_utf8` of the standard library: the bytes become a string
/// exactly when they are well-formed UTF-8, and the string then consists of
/// those very bytes. The outcome is believed, not proved.
#[verifier::external_body]
fn string_from_utf8(bytes: Vec<u8>) -> (text: Option<String>)
    ensures
        text is Some <==> valid_utf8(bytes@),
        text matches Some(t) ==> encode_utf8(t@) == bytes@,
{
    String::from_utf8(bytes).ok()
}

/// Checks that `text` stands in `input` at `at` and returns the index
/// behind it.
fn expect(input: &[u8], at: usize, text: &[u8]) -> (next: Option<usize>)
    requires
        at <= input.len(),
    ensures
        match next {
            Some(n) => stands_at(input@, at as int, text@) && n == at + text@.len(),
            None => !stands_at(input@, at as int, text@),
        },
{
    if text.len() > input.len() - at {
        return None;
    }
    let mut i: usize = 0;
    while i < text.len()
        invariant
            at + text.len() <= input.len(),
            i <= text.len(),
            input@.subrange(at as int, at + i) == text@.take(i as int),
        decreases text.len() - i,
    {
        if input[at + i] != text[i] {
            proof {
                if stands_at(input@, at as int, text@) {
                    let found = input@.subrange(at as int, at + text@.len());
                    assert(found[i as int] == text@[i as int]);
                }
            }
            return None;
        }
        i = i + 1;
        assert(input@.subrange(at as int, at + i) == text@.take(i as int));
    }
    assert(text@.take(text@.len() as int) == text@);
    Some(at + text.len())
}

/// A prefix of a string of digits denotes no more than the whole string.
proof fn lemma_digits_value_prefix(d: Seq<u8>, k: int)
    requires
        0 <= k <= d.len(),
    ensures
        digits_value(d.take(k)) <= digits_value(d),
    decreases d.len() - k,
{
    if k == d.len() {
        assert(d.take(k) == d);
    } else {
        lemma_digits_value_prefix(d.drop_last(), k);
        assert(d.drop_last().take(k) == d.take(k));
    }
}

/// Reads the number written at `at`.
fn read_number(input: &[u8], at: usize) -> (number: Option<(u64, usize)>)
    requires
        at <= input.len(),
    ensures
        match number {
            Some((n, end)) => parse_number(input@, at as int) == Some((n, end as int)) && end
                <= input.len(),
            None => parse_number(input@, at as int) is None,
        },
{
    let mut pos: usize = at;
    let mut value: u64 = 0;
    assert(input@.subrange(at as int, at as int) == Seq::<u8>::empty());
    while pos < input.len() && 0x30 <= input[pos] && input[pos] <= 0x39
        invariant
            at <= pos <= input.len(),
            digits_end(input@, at as int) == digits_end(input@, pos as int),
            value == digits_value(input@.subrange(at as int, pos as int)),
        decreases input.len() - pos,
    {
        let digit: u64 = (input[pos] - 0x30) as u64;
        proof {
            let next = input@.subrange(at as int, pos + 1);
            assert(next.drop_last() == input@.subrange(at as int, pos as int));
            assert(next.last() == input@[pos as int]);
        }
        if value > (u64::MAX - digit) / 10 {
            proof {
                let end = digits_end(input@, at as int);
                lemma_digits_end_covers_digits(input@, pos + 1);
                let run = input@.subrange(at as int, end);
                assert(run.take(pos + 1 - at) == input@.subrange(at as int, pos + 1));
                lemma_digits_value_prefix(run, pos + 1 - at);
            }
            return None;
        }
        value = value * 10 + digit;
        pos = pos + 1;
    }
    if pos == at {
        return None;
    }
    if input[at] == 0x30 && pos != at + 1 {
        return None;
    }
    Some((value, pos))
}

/// Reads the message type whose token stands at `at`.
fn read_message_type(input: &[u8], at: usize) -> (token: Option<(MessageType, usize)>)
    requires
        at <= input.len(),
    ensures
        match token {
            Some((t, next)) => parse_message_type(input@, at as int) == Some((t, next as int))
                && next <= input.len(),
            None => parse_message_type(input@, at as int) is None,
        },
{
    if let Some(next) = expect(input, at, message_type_name(MessageType::Proposal).as_bytes()) {
        return Some((MessageType::Proposal, next));
    }
    if let Some(next) = expect(
        input,
        at,
        message_type_name(MessageType::Acknowledgment).as_bytes(),
    ) {
        return Some((MessageType::Acknowledgment, next));
    }
    if let Some(next) = expect(input, at, message_type_name(MessageType::Commit).as_bytes()) {
        return Some((MessageType::Commit, next));
    }
    None
}

/// Reads the state whose token stands at `at`.
fn read_state(input: &[u8], at: usize) -> (token: Option<(State, usize)>)
    requires
        at <= input.len(),
    ensures
        match token {
            Some((s, next)) => parse_state(input@, at as int) == Some((s, next as int)) && next
                <= input.len(),
            None => parse_state(input@, at as int) is None,
        },
{
    if let Some(next) = expect(input, at, state_name(State::Init).as_bytes()) {
        return Some((State::Init, next));
    }
    if let Some(next) = expect(input, at, state_name(State::Running).as_bytes()) {
        return Some((State::Running, next));
    }
    if let Some(next) = expect(input, at, state_name(State::Stopped).as_bytes()) {
        return Some((State::Stopped, next));
    }
    None
}

/// Reads the two hexadecimal digits of a `\u00XX` form.
fn read_short_hex(high: u8, low: u8) -> (value: u8)
    ensures
        value == short_hex_value(high, low),
{
    if (high == 0x30 || high == 0x31) && 0x30 <= low && low <= 0x39 {
        (high - 0x30) * 16 + (low - 0x30)
    } else if (high == 0x30 || high == 0x31) && 0x61 <= low && low <= 0x66 {
        (high - 0x30) * 16 + (low - 0x57)
    } else {
        0xff
    }
}

/// Reads the escaped form of one byte at `at`.
fn read_escaped_byte(input: &[u8], at: usize) -> (unit: Option<(u8, usize)>)
    requires
        at < input.len(),
    ensures
        match unit {
            Some((b, width)) => parse_escaped_byte(input@, at as int) == Some((b, width as int))
                && 1 <= width && at + width <= input.len(),
            None => parse_escaped_byte(input@, at as int) is None,
        },
{
    let first = input[at];
    if first == BACKSLASH {
        if input.len() - at < 2 {
            return None;
        }
        let second = input[at + 1];
        if second == 0x22 || second == 0x5c {
            Some((second, 2))
        } else if second == 0x62 {
            Some((0x08, 2))
        } else if second == 0x74 {
            Some((0x09, 2))
        } else if second == 0x6e {
            Some((0x0a, 2))
        } else if second == 0x66 {
            Some((0x0c, 2))
        } else if second == 0x72 {
            Some((0x0d, 2))
        } else if second == 0x75 && input.len() - at >= 6 {
            let value = read_short_hex(input[at + 4], input[at + 5]);
            let long_form = value < 0x20 && value != 0x08 && value != 0x09 && value != 0x0a
                && value != 0x0c && value != 0x0d;
            if long_form && input[at + 2] == 0x30 && input[at + 3] == 0x30 {
                assert(input@.subrange(at as int, at + 6) == escape_byte(value));
                Some((value, 6))
            } else {
                proof {
                    let form = escape_byte(value);
                    if stands_at(input@, at as int, form) {
                        let found = input@.subrange(at as int, at + form.len());
                        assert(found[0] == input@[at as int]);
                        if form.len() >= 2 {
                            assert(found[1] == input@[at + 1]);
                        }
                        if form.len() == 6 {
                            assert(found[2] == input@[at + 2]);
                            assert(found[3] == input@[at + 3]);
                        }
                    }
                }
                None
            }
        } else {
            None
        }
    } else if first < 0x20 || first == QUOTE {
        None
    } else {
        Some((first, 1))
    }
}

/// Puts `head` in front of the string that a parse has found.
spec fn with_head(head: Seq<u8>, parsed: Option<(Seq<u8>, int)>) -> Option<(Seq<u8>, int)> {
    match parsed {
        Some((rest, close)) => Some((head + rest, close)),
        None => None,
    }
}

/// Reads the string whose escaped form starts at `at`, up to the quote that
/// closes it.
fn read_escaped(input: &[u8], at: usize) -> (text: Option<(Vec<u8>, usize)>)
    requires
        at <= input.len(),
    ensures
        match text {
            Some((bytes, close)) => parse_escaped(input@, at as int) == Some(
                (bytes@, close as int),
            ) && close < input.len(),
            None => parse_escaped(input@, at as int) is None,
        },
{
    let mut out: Vec<u8> = Vec::new();
    let mut pos: usize = at;
    assert(with_head(out@, parse_escaped(input@, pos as int)) == parse_escaped(input@, at as int))
        by {
        match parse_escaped(input@, pos as int) {
            Some((rest, close)) => {
                assert(out@ + rest == rest);
            },
            None => {},
        }
    }
    while pos < input.len() && input[pos] != QUOTE
        invariant
            at <= pos <= input.len(),
            with_head(out@, parse_escaped(input@, pos as int)) == parse_escaped(
                input@,
                at as int,
            ),
        decreases input.len() - pos,
    {
        match read_escaped_byte(input, pos) {
            Some((b, width)) => {
                proof {
                    match parse_escaped(input@, pos + width) {
                        Some((rest, close)) => {
                            assert(out@ + (seq![b] + rest) == out@.push(b) + rest);
                        },
                        None => {},
                    }
                }
                out.push(b);
                pos = pos + width;
            },
            None => {
                return None;
            },
        }
    }
    if pos >= input.len() {
        return None;
    }
    assert(out@ + Seq::<u8>::empty() == out@);
    Some((out, pos))
}

/// Reads a whole message from `input`.
pub(crate) fn read_message(input: &[u8]) -> (message: Option<Message>)
    ensures
        match message {
            Some(m) => parse_message(input@) == Some(m@),
            None => parse_message(input@) is None,
        },
{
    let at_sender = match expect(input, 0, "{\"sender_id\":".as_bytes()) {
        Some(next) => next,
        None => {
            return None;
        },
    };
    let (sender_id, at_type_key) = match read_number(input, at_sender) {
        Some(found) => found,
        None => {
            return None;
        },
    };
    let at_type = match expect(input, at_type_key, ",\"message_type\":\"".as_bytes()) {
        Some(next) => next,
        None => {
            return None;
        },
    };
    let (message_type, at_state_key) = match read_message_type(input, at_type) {
        Some(found) => found,
        None => {
            return None;
        },
    };
    let at_state = match expect(input, at_state_key, "\",\"proposed_state\":\"".as_bytes()) {
        Some(next) => next,
        None => {
            return None;
        },
    };
    let (proposed_state, at_id_key) = match read_state(input, at_state) {
        Some(found) => found,
        None => {
            return None;
        },
    };
    let at_id = match expect(input, at_id_key, "\",\"proposal_id\":\"".as_bytes()) {
        Some(next) => next,
        None => {
            return None;
        },
    };
    let (id, at_close) = match read_escaped(input, at_id) {
        Some(found) => found,
        None => {
            return None;
        },
    };
    let at_end = match expect(input, at_close, "\"}".as_bytes()) {
        Some(next) => next,
        None => {
            return None;
        },
    };
    if at_end != input.len() {
        return None;
    }
    let ghost id_bytes = id@;
    match string_from_utf8(id) {
        Some(proposal_id) => {
            proof {
                vstd::utf8::encode_utf8_decode_utf8(proposal_id@);
            }
            Some(Message { sender_id, message_type, proposed_state, proposal_id })
        },
        None => None,
    }
}


/// What the proofs below need to know of the fixed texts of the format.
proof fn lemma_fixed_texts()
    ensures
        ",\"message_type\":\"".spec_bytes().len() > 0,
        ",\"message_type\":\"".spec_bytes()[0] == 0x2c,
        "\"}".spec_bytes() == seq![0x22u8, 0x7du8],
        message_type_token(MessageType::Proposal).len() > 0,
        message_type_token(MessageType::Proposal)[0] == 0x50,
        message_type_token(MessageType::Acknowledgment).len() > 0,
        message_type_token(MessageType::Acknowledgment)[0] == 0x41,
        message_type_token(MessageType::Commit).len() > 0,
        message_type_token(MessageType::Commit)[0] == 0x43,
        state_token(State::Init).len() > 0,
        state_token(State::Init)[0] == 0x49,
        state_token(State::Running).len() > 0,
        state_token(State::Running)[0] == 0x52,
        state_token(State::Stopped).len() > 0,
        state_token(State::Stopped)[0] == 0x53,
{
    reveal_strlit(",\"message_type\":\"");
    reveal_strlit("\"}");
    reveal_strlit("Proposal");
    reveal_strlit("Acknowledgment");
    reveal_strlit("Commit");
    reveal_strlit("Init");
    reveal_strlit("Running");
    reveal_strlit("Stopped");
    vstd::string::is_ascii_spec_bytes(",\"message_type\":\"");
    vstd::string::is_ascii_spec_bytes("\"}");
    vstd::string::is_ascii_spec_bytes("Proposal");
    vstd::string::is_ascii_spec_bytes("Acknowledgment");
    vstd::string::is_ascii_spec_bytes("Commit");
    vstd::string::is_ascii_spec_bytes("Init");
    vstd::string::is_ascii_spec_bytes("Running");
    vstd::string::is_ascii_spec_bytes("Stopped");
}

/// `decimal(n)` is a non-empty string of digits that denotes `n` and
/// starts with a zero only where `n` is zero.
proof fn lemma_decimal(n: nat)
    ensures
        decimal(n).len() >= 1,
        forall|i: int| 0 <= i < decimal(n).len() ==> is_digit(#[trigger] decimal(n)[i]),
        decimal(n)[0] == 0x30 ==> n == 0,
        n < 10 ==> decimal(n).len() == 1,
        digits_value(decimal(n)) == n,
    decreases n,
{
    if n < 10 {
        assert(decimal(n).drop_last() == Seq::<u8>::empty());
        assert(digits_value(decimal(n).drop_last()) == 0);
    } else {
        lemma_decimal(n / 10);
        let head = decimal(n / 10);
        assert(decimal(n).drop_last() == head);
        assert(decimal(n)[0] == head[0]);
    }
}

/// A string of digits without a leading zero is the decimal form of the
/// number it denotes.
proof fn lemma_digits_canonical(d: Seq<u8>)
    requires
        d.len() >= 1,
        forall|i: int| 0 <= i < d.len() ==> is_digit(#[trigger] d[i]),
        d[0] != 0x30 || d.len() == 1,
    ensures
        decimal(digits_value(d)) == d,
        d[0] != 0x30 ==> digits_value(d) >= 1,
    decreases d.len(),
{
    let head = d.drop_last();
    if head.len() == 0 {
        assert(digits_value(head) == 0);
        assert(decimal(digits_value(d)) == d);
    } else {
        assert(head[0] == d[0]);
        lemma_digits_canonical(head);
        let value = digits_value(d);
        assert(value == digits_value(head) * 10 + (d.last() - 0x30));
        assert(value / 10 == digits_value(head));
        assert(value % 10 == d.last() - 0x30);
        assert(decimal(value) == decimal(value / 10).push((0x30 + value % 10) as u8));
        assert(decimal(digits_value(d)) == d);
    }
}

/// A run of digits that is followed by something else ends where that
/// begins.
proof fn lemma_digits_end_of_run(s: Seq<u8>, at: int, d: Seq<u8>)
    requires
        stands_at(s, at, d),
        forall|i: int| 0 <= i < d.len() ==> is_digit(#[trigger] d[i]),
        at + d.len() == s.len() || !is_digit(s[at + d.len()]),
    ensures
        digits_end(s, at) == at + d.len(),
    decreases d.len(),
{
    if d.len() > 0 {
        assert(s.subrange(at, at + d.len())[0] == d[0]);
        let tail = d.drop_first();
        assert(s.subrange(at + 1, at + 1 + tail.len()) == tail) by {
            assert forall|i: int| 0 <= i < tail.len() implies s.subrange(
                at + 1,
                at + 1 + tail.len(),
            )[i] == tail[i] by {
                assert(s.subrange(at, at + d.len())[i + 1] == d[i + 1]);
            }
        }
        assert forall|i: int| 0 <= i < tail.len() implies is_digit(#[trigger] tail[i]) by {
            assert(is_digit(d[i + 1]));
        }
        lemma_digits_end_of_run(s, at + 1, tail);
    }
}

/// Every byte of the run of digits that starts at `at` is a digit.
proof fn lemma_digits_end_covers_digits(s: Seq<u8>, at: int)
    requires
        0 <= at <= s.len(),
    ensures
        at <= digits_end(s, at) <= s.len(),
        forall|i: int| at <= i < digits_end(s, at) ==> is_digit(#[trigger] s[i]),
        digits_end(s, at) == s.len() || !is_digit(s[digits_end(s, at)]),
    decreases s.len() - at,
{
    if at < s.len() && is_digit(s[at]) {
        lemma_digits_end_covers_digits(s, at + 1);
    }
}

/// A number that stands in its decimal form, followed by something that
/// is no digit, is read back.
proof fn lemma_parse_number_of_decimal(s: Seq<u8>, at: int, n: u64)
    requires
        stands_at(s, at, decimal(n as nat)),
        at + decimal(n as nat).len() == s.len() || !is_digit(s[at + decimal(n as nat).len()]),
    ensures
        parse_number(s, at) == Some((n, at + decimal(n as nat).len())),
{
    let d = decimal(n as nat);
    lemma_decimal(n as nat);
    lemma_digits_end_of_run(s, at, d);
    assert(s.subrange(at, at + d.len())[0] == d[0]);
}

/// What was read as a number stands there in its decimal form.
proof fn lemma_parse_number_is_decimal(s: Seq<u8>, at: int, n: u64, end: int)
    requires
        parse_number(s, at) == Some((n, end)),
    ensures
        stands_at(s, at, decimal(n as nat)),
        end == at + decimal(n as nat).len(),
{
    let d = s.subrange(at, end);
    lemma_digits_end_covers_digits(s, at);
    assert forall|i: int| 0 <= i < d.len() implies is_digit(#[trigger] d[i]) by {
        assert(is_digit(s[at + i]));
    }
    lemma_digits_canonical(d);
}

/// The escaped form of a concatenation is the concatenation of the
/// escaped forms.
proof fn lemma_escape_concat(a: Seq<u8>, b: Seq<u8>)
    ensures
        escape(a + b) == escape(a) + escape(b),
    decreases b.len(),
{
    if b.len() == 0 {
        assert(a + b == a);
    } else {
        lemma_escape_concat(a, b.drop_last());
        assert((a + b).drop_last() == a + b.drop_last());
        assert((a + b).last() == b.last());
    }
}

/// The escaped form of a non-empty string starts with that of its first
/// byte.
proof fn lemma_escape_first(u: Seq<u8>)
    requires
        u.len() > 0,
    ensures
        escape(u) == escape_byte(u[0]) + escape(u.drop_first()),
{
    let head = seq![u[0]];
    assert(u == head + u.drop_first());
    lemma_escape_concat(head, u.drop_first());
    assert(head.drop_last() == Seq::<u8>::empty());
    assert(escape(head) == escape_byte(u[0])) by {
        assert(escape(head.drop_last()) == Seq::<u8>::empty());
        assert(head.last() == u[0]);
    }
}

/// The escaped form of a byte is read back as that byte, and does not
/// start with a quote.
proof fn lemma_parse_escaped_byte_of_escape(s: Seq<u8>, at: int, b: u8)
    requires
        stands_at(s, at, escape_byte(b)),
    ensures
        parse_escaped_byte(s, at) == Some((b, escape_byte(b).len() as int)),
        s[at] != QUOTE,
        escape_byte(b).len() >= 1,
{
    let form = escape_byte(b);
    let found = s.subrange(at, at + form.len());
    assert(found[0] == s[at]);
    if form.len() >= 2 {
        assert(found[1] == s[at + 1]);
    }
    if form.len() == 6 {
        assert(found[4] == s[at + 4]);
        assert(found[5] == s[at + 5]);
        assert(short_hex_value(s[at + 4], s[at + 5]) == b);
    }
}

/// What was read as an escaped byte stands there in its escaped form.
proof fn lemma_parse_escaped_byte_is_escape(s: Seq<u8>, at: int, b: u8, width: int)
    requires
        parse_escaped_byte(s, at) == Some((b, width)),
    ensures
        stands_at(s, at, escape_byte(b)),
        width == escape_byte(b).len(),
        s[at] != QUOTE,
{
    if width != 6 {
        assert(s.subrange(at, at + width) == escape_byte(b));
    } else {
        let form = escape_byte(b);
        let found = s.subrange(at, at + form.len());
        assert(found[0] == s[at]);
        if form.len() >= 2 {
            assert(found[1] == s[at + 1]);
        }
    }
}

/// The escaped form of a string, followed by a quote, is read back as
/// that string.
proof fn lemma_parse_escaped_of_escape(s: Seq<u8>, at: int, u: Seq<u8>)
    requires
        stands_at(s, at, escape(u)),
        at + escape(u).len() < s.len(),
        s[at + escape(u).len()] == QUOTE,
    ensures
        parse_escaped(s, at) == Some((u, at + escape(u).len())),
    decreases u.len(),
{
    if u.len() == 0 {
    } else {
        lemma_escape_first(u);
        let form = escape_byte(u[0]);
        let tail = u.drop_first();
        let whole = s.subrange(at, at + escape(u).len());
        assert(s.subrange(at, at + form.len()) == form) by {
            assert forall|i: int| 0 <= i < form.len() implies s.subrange(
                at,
                at + form.len(),
            )[i] == form[i] by {
                assert(whole[i] == form[i]);
            }
        }
        lemma_parse_escaped_byte_of_escape(s, at, u[0]);
        assert(s.subrange(at + form.len(), at + form.len() + escape(tail).len()) == escape(tail))
            by {
            assert forall|i: int| 0 <= i < escape(tail).len() implies s.subrange(
                at + form.len(),
                at + form.len() + escape(tail).len(),
            )[i] == escape(tail)[i] by {
                assert(whole[form.len() + i] == escape(tail)[i]);
            }
        }
        lemma_parse_escaped_of_escape(s, at + form.len(), tail);
        assert(seq![u[0]] + tail == u);
    }
}

/// What was read as a string stands there in its escaped form, up to the
/// quote that closes it.
proof fn lemma_parse_escaped_is_escape(s: Seq<u8>, at: int, u: Seq<u8>, close: int)
    requires
        parse_escaped(s, at) == Some((u, close)),
    ensures
        at <= close < s.len(),
        s[close] == QUOTE,
        s.subrange(at, close) == escape(u),
    decreases s.len() - at,
{
    if s[at] == QUOTE {
        assert(s.subrange(at, at) == Seq::<u8>::empty());
    } else {
        let (b, width) = parse_escaped_byte(s, at)->0;
        lemma_parse_escaped_byte_is_escape(s, at, b, width);
        let (rest, end) = parse_escaped(s, at + width)->0;
        lemma_parse_escaped_is_escape(s, at + width, rest, end);
        lemma_escape_first(u);
        assert(u.drop_first() == rest);
        assert(s.subrange(at, close) == s.subrange(at, at + width) + s.subrange(
            at + width,
            close,
        ));
    }
}


/// A text that stands in a prefix of `s` stands in `s` at the same place.
proof fn lemma_stands_in_extension(w: Seq<u8>, s: Seq<u8>, at: int, text: Seq<u8>)
    requires
        w.is_prefix_of(s),
        stands_at(w, at, text),
    ensures
        stands_at(s, at, text),
{
    assert(s.subrange(at, at + text.len()) == w.subrange(at, at + text.len()));
}

/// Where each of nine texts stands in their concatenation.
proof fn lemma_layout(
    a: Seq<u8>,
    d: Seq<u8>,
    b: Seq<u8>,
    t: Seq<u8>,
    c: Seq<u8>,
    st: Seq<u8>,
    e: Seq<u8>,
    x: Seq<u8>,
    f: Seq<u8>,
)
    ensures
        ({
            let s = a + d + b + t + c + st + e + x + f;
            let at_sender = a.len() as int;
            let at_type_key = at_sender + d.len();
            let at_type = at_type_key + b.len();
            let at_state_key = at_type + t.len();
            let at_state = at_state_key + c.len();
            let at_id_key = at_state + st.len();
            let at_id = at_id_key + e.len();
            let at_close = at_id + x.len();
            &&& stands_at(s, 0, a)
            &&& stands_at(s, at_sender, d)
            &&& stands_at(s, at_type_key, b)
            &&& stands_at(s, at_type, t)
            &&& stands_at(s, at_state_key, c)
            &&& stands_at(s, at_state, st)
            &&& stands_at(s, at_id_key, e)
            &&& stands_at(s, at_id, x)
            &&& stands_at(s, at_close, f)
            &&& s.len() == at_close + f.len()
        }),
{
    let s1 = a;
    let s2 = s1 + d;
    let s3 = s2 + b;
    let s4 = s3 + t;
    let s5 = s4 + c;
    let s6 = s5 + st;
    let s7 = s6 + e;
    let s8 = s7 + x;
    let s9 = s8 + f;
    assert(s8.is_prefix_of(s9));
    assert(s7.is_prefix_of(s9)) by {
        assert(s7.is_prefix_of(s8));
    }
    assert(s6.is_prefix_of(s9)) by {
        assert(s6.is_prefix_of(s7));
    }
    assert(s5.is_prefix_of(s9)) by {
        assert(s5.is_prefix_of(s6));
    }
    assert(s4.is_prefix_of(s9)) by {
        assert(s4.is_prefix_of(s5));
    }
    assert(s3.is_prefix_of(s9)) by {
        assert(s3.is_prefix_of(s4));
    }
    assert(s2.is_prefix_of(s9)) by {
        assert(s2.is_prefix_of(s3));
    }
    assert(s1.is_prefix_of(s9)) by {
        assert(s1.is_prefix_of(s2));
    }
    assert(stands_at(s1, 0, a)) by {
        assert(s1.subrange(0, a.len() as int) == a);
    }
    lemma_stands_in_extension(s1, s9, 0, a);
    lemma_stands_last(s1, d);
    lemma_stands_in_extension(s2, s9, s1.len() as int, d);
    lemma_stands_last(s2, b);
    lemma_stands_in_extension(s3, s9, s2.len() as int, b);
    lemma_stands_last(s3, t);
    lemma_stands_in_extension(s4, s9, s3.len() as int, t);
    lemma_stands_last(s4, c);
    lemma_stands_in_extension(s5, s9, s4.len() as int, c);
    lemma_stands_last(s5, st);
    lemma_stands_in_extension(s6, s9, s5.len() as int, st);
    lemma_stands_last(s6, e);
    lemma_stands_in_extension(s7, s9, s6.len() as int, e);
    lemma_stands_last(s7, x);
    lemma_stands_in_extension(s8, s9, s7.len() as int, x);
    lemma_stands_last(s8, f);
}

/// A text stands at the end of what it was appended to.
proof fn lemma_stands_last(w: Seq<u8>, text: Seq<u8>)
    ensures
        stands_at(w + text, w.len() as int, text),
{
    assert((w + text).subrange(w.len() as int, (w.len() + text.len()) as int) == text);
}

/// The first byte of a text that stands at `at` is the byte at `at`.
proof fn lemma_stands_first(s: Seq<u8>, at: int, text: Seq<u8>)
    requires
        stands_at(s, at, text),
        text.len() > 0,
    ensures
        s[at] == text[0],
{
    assert(s.subrange(at, at + text.len())[0] == text[0]);
}

/// The token of a message type is read back as that type.
proof fn lemma_parse_message_type_of_token(s: Seq<u8>, at: int, t: MessageType)
    requires
        stands_at(s, at, message_type_token(t)),
    ensures
        parse_message_type(s, at) == Some((t, at + message_type_token(t).len())),
{
    lemma_fixed_texts();
    let proposal = message_type_token(MessageType::Proposal);
    let acknowledgment = message_type_token(MessageType::Acknowledgment);
    let commit = message_type_token(MessageType::Commit);
    if stands_at(s, at, proposal) {
        assert(s.subrange(at, at + proposal.len())[0] == proposal[0]);
    }
    if stands_at(s, at, acknowledgment) {
        assert(s.subrange(at, at + acknowledgment.len())[0] == acknowledgment[0]);
    }
    if stands_at(s, at, commit) {
        assert(s.subrange(at, at + commit.len())[0] == commit[0]);
    }
}

/// The token of a state is read back as that state.
proof fn lemma_parse_state_of_token(s: Seq<u8>, at: int, state: State)
    requires
        stands_at(s, at, state_token(state)),
    ensures
        parse_state(s, at) == Some((state, at + state_token(state).len())),
{
    lemma_fixed_texts();
    let init = state_token(State::Init);
    let running = state_token(State::Running);
    let stopped = state_token(State::Stopped);
    if stands_at(s, at, init) {
        assert(s.subrange(at, at + init.len())[0] == init[0]);
    }
    if stands_at(s, at, running) {
        assert(s.subrange(at, at + running.len())[0] == running[0]);
    }
    if stands_at(s, at, stopped) {
        assert(s.subrange(at, at + stopped.len())[0] == stopped[0]);
    }
}

/// Reading the encoding of a message gives that message back.
pub(crate) proof fn lemma_parse_of_encode(v: MessageView)
    ensures
        parse_message(spec_encode(v)) == Some(v),
{
    let s = spec_encode(v);
    let a = "{\"sender_id\":".spec_bytes();
    let d = decimal(v.sender_id as nat);
    let b = ",\"message_type\":\"".spec_bytes();
    let t = message_type_token(v.message_type);
    let c = "\",\"proposed_state\":\"".spec_bytes();
    let st = state_token(v.proposed_state);
    let e = "\",\"proposal_id\":\"".spec_bytes();
    let id = encode_utf8(v.proposal_id);
    let x = escape(id);
    let f = "\"}".spec_bytes();
    let at_sender = a.len() as int;
    let at_type_key = at_sender + d.len();
    let at_type = at_type_key + b.len();
    let at_state_key = at_type + t.len();
    let at_state = at_state_key + c.len();
    let at_id_key = at_state + st.len();
    let at_id = at_id_key + e.len();
    let at_close = at_id + x.len();
    lemma_fixed_texts();
    lemma_layout(a, d, b, t, c, st, e, x, f);
    assert(parse_number(s, at_sender) == Some((v.sender_id, at_type_key))) by {
        lemma_stands_first(s, at_type_key, b);
        lemma_parse_number_of_decimal(s, at_sender, v.sender_id);
    }
    assert(parse_message_type(s, at_type) == Some((v.message_type, at_state_key))) by {
        lemma_parse_message_type_of_token(s, at_type, v.message_type);
    }
    assert(parse_state(s, at_state) == Some((v.proposed_state, at_id_key))) by {
        lemma_parse_state_of_token(s, at_state, v.proposed_state);
    }
    assert(parse_escaped(s, at_id) == Some((id, at_close))) by {
        lemma_stands_first(s, at_close, f);
        lemma_parse_escaped_of_escape(s, at_id, id);
    }
    vstd::utf8::encode_utf8_valid_utf8(v.proposal_id);
    vstd::utf8::encode_utf8_decode_utf8(v.proposal_id);
}

/// Whatever is read as a message is the encoding of that message.
pub(crate) proof fn lemma_encode_of_parse(s: Seq<u8>, v: MessageView)
    requires
        parse_message(s) == Some(v),
    ensures
        spec_encode(v) == s,
{
    let a = "{\"sender_id\":".spec_bytes();
    let b = ",\"message_type\":\"".spec_bytes();
    let c = "\",\"proposed_state\":\"".spec_bytes();
    let e = "\",\"proposal_id\":\"".spec_bytes();
    let f = "\"}".spec_bytes();
    let at_sender = a.len() as int;
    let (sender_id, at_type_key) = parse_number(s, at_sender)->0;
    lemma_parse_number_is_decimal(s, at_sender, sender_id, at_type_key);
    let at_type = at_type_key + b.len();
    let (message_type, at_state_key) = parse_message_type(s, at_type)->0;
    let at_state = at_state_key + c.len();
    let (proposed_state, at_id_key) = parse_state(s, at_state)->0;
    let at_id = at_id_key + e.len();
    let (id, at_close) = parse_escaped(s, at_id)->0;
    lemma_parse_escaped_is_escape(s, at_id, id, at_close);
    vstd::utf8::decode_utf8_encode_utf8(id);
    let d = decimal(sender_id as nat);
    let t = message_type_token(message_type);
    let st = state_token(proposed_state);
    let x = escape(id);
    assert(s.subrange(0, at_sender) == a);
    assert(s.subrange(at_sender, at_type_key) == d);
    assert(s.subrange(at_type_key, at_type) == b);
    assert(s.subrange(at_type, at_state_key) == t);
    assert(s.subrange(at_state_key, at_state) == c);
    assert(s.subrange(at_state, at_id_key) == st);
    assert(s.subrange(at_id_key, at_id) == e);
    assert(s.subrange(at_id, at_close) == x);
    assert(s.subrange(at_close, s.len() as int) == f);
    assert(s == a + d + b + t + c + st + e + x + f);
}

} // verus!
