//! The wire format of a [`Message`].
//!
//! A message travels as one compact JSON object whose members appear in a
//! fixed order, without insignificant whitespace:
//!
//! ```text
//! {"sender_id":7,"message_type":"Proposal","proposed_state":"Running","proposal_id":"abc"}
//! ```
//!
//! [`spec_encode`] defines the format, [`encode`] produces it and [`decode`]
//! accepts exactly the byte strings that [`spec_encode`] can produce, so
//! every message has one encoding and every accepted byte string one
//! meaning.

use vstd::prelude::*;
use vstd::string::StringSliceAdditionalSpecFns;
use vstd::utf8::encode_utf8;
use crate::message::Message;
use crate::message::MessageType;
use crate::message::MessageView;
use crate::parse::lemma_encode_of_parse;
use crate::parse::lemma_parse_of_encode;
use crate::parse::parse_message;
use crate::parse::read_message;
use crate::state::State;

verus! {

/// The byte `"`, which opens and closes a JSON string.
pub const QUOTE: u8 = 0x22;

/// The byte `\`, which introduces an escape sequence.
pub const BACKSLASH: u8 = 0x5c;

/// The decimal digits of `n`, most significant first, without leading zeros.
pub open spec fn decimal(n: nat) -> Seq<u8>
    decreases n,
{
    if n < 10 {
        seq![(0x30 + n) as u8]
    } else {
        decimal(n / 10).push((0x30 + n % 10) as u8)
    }
}

/// The lower-case hexadecimal digit for `v`, where `v < 16`.
pub open spec fn hex_digit(v: int) -> u8 {
    if v < 10 {
        (0x30 + v) as u8
    } else {
        (0x57 + v) as u8
    }
}

/// How one byte of a string appears between the quotes: `"` and `\` behind
/// a backslash, the control characters as `\b`, `\t`, `\n`, `\f`, `\r` or
/// `\u00XX`, and every other byte as itself.
pub open spec fn escape_byte(b: u8) -> Seq<u8> {
    if b == 0x22 {
        seq![0x5cu8, 0x22u8]
    } else if b == 0x5c {
        seq![0x5cu8, 0x5cu8]
    } else if b == 0x08 {
        seq![0x5cu8, 0x62u8]
    } else if b == 0x09 {
        seq![0x5cu8, 0x74u8]
    } else if b == 0x0a {
        seq![0x5cu8, 0x6eu8]
    } else if b == 0x0c {
        seq![0x5cu8, 0x66u8]
    } else if b == 0x0d {
        seq![0x5cu8, 0x72u8]
    } else if b < 0x20 {
        seq![0x5cu8, 0x75u8, 0x30u8, 0x30u8, hex_digit(b as int / 16), hex_digit(b as int % 16)]
    } else {
        seq![b]
    }
}

/// The bytes of a string as they appear between the quotes.
pub open spec fn escape(s: Seq<u8>) -> Seq<u8>
    decreases s.len(),
{
    if s.len() == 0 {
        Seq::empty()
    } else {
        escape(s.drop_last()) + escape_byte(s.last())
    }
}

/// The token that stands for a message type.
pub open spec fn message_type_token(t: MessageType) -> Seq<u8> {
    match t {
        MessageType::Proposal => "Proposal".spec_bytes(),
        MessageType::Acknowledgment => "Acknowledgment".spec_bytes(),
        MessageType::Commit => "Commit".spec_bytes(),
    }
}

/// The token that stands for a lifecycle state.
pub open spec fn state_token(s: State) -> Seq<u8> {
    match s {
        State::Init => "Init".spec_bytes(),
        State::Running => "Running".spec_bytes(),
        State::Stopped => "Stopped".spec_bytes(),
    }
}

/// The encoding of a message: the one byte string that stands for it on the
/// wire.
pub open spec fn spec_encode(m: MessageView) -> Seq<u8> {
    "{\"sender_id\":".spec_bytes() + decimal(m.sender_id as nat)
        + ",\"message_type\":\"".spec_bytes() + message_type_token(m.message_type)
        + "\",\"proposed_state\":\"".spec_bytes() + state_token(m.proposed_state)
        + "\",\"proposal_id\":\"".spec_bytes() + escape(encode_utf8(m.proposal_id))
        + "\"}".spec_bytes()
}

/// Appends `text` to `out`.
fn put(out: &mut Vec<u8>, text: &[u8])
    ensures
        final(out)@ == old(out)@ + text@,
{
    let mut i: usize = 0;
    while i < text.len()
        invariant
            i <= text.len(),
            out@ == old(out)@ + text@.take(i as int),
        decreases text.len() - i,
    {
        out.push(text[i]);
        i = i + 1;
    }
}

/// Appends the decimal digits of `n` to `out`.
fn put_decimal(out: &mut Vec<u8>, n: u64)
    ensures
        final(out)@ == old(out)@ + decimal(n as nat),
    decreases n,
{
    if n >= 10 {
        put_decimal(out, n / 10);
    }
    out.push(0x30 + (n % 10) as u8);
}

/// The lower-case hexadecimal digit for `v`.
fn hex_digit_of(v: u8) -> (digit: u8)
    requires
        v < 16,
    ensures
        digit == hex_digit(v as int),
{
    if v < 10 {
        0x30 + v
    } else {
        0x57 + v
    }
}

/// Appends the escaped form of one byte to `out`.
fn put_escaped_byte(out: &mut Vec<u8>, b: u8)
    ensures
        final(out)@ == old(out)@ + escape_byte(b),
{
    if b == 0x22 || b == 0x5c {
        out.push(BACKSLASH);
        out.push(b);
    } else if b == 0x08 {
        out.push(BACKSLASH);
        out.push(0x62);
    } else if b == 0x09 {
        out.push(BACKSLASH);
        out.push(0x74);
    } else if b == 0x0a {
        out.push(BACKSLASH);
        out.push(0x6e);
    } else if b == 0x0c {
        out.push(BACKSLASH);
        out.push(0x66);
    } else if b == 0x0d {
        out.push(BACKSLASH);
        out.push(0x72);
    } else if b < 0x20 {
        out.push(BACKSLASH);
        out.push(0x75);
        out.push(0x30);
        out.push(0x30);
        out.push(hex_digit_of(b / 16));
        out.push(hex_digit_of(b % 16));
    } else {
        out.push(b);
    }
}

/// Appends the escaped form of `text` to `out`.
fn put_escaped(out: &mut Vec<u8>, text: &[u8])
    ensures
        final(out)@ == old(out)@ + escape(text@),
{
    let mut i: usize = 0;
    while i < text.len()
        invariant
            i <= text.len(),
            out@ == old(out)@ + escape(text@.take(i as int)),
        decreases text.len() - i,
    {
        proof {
            let next = text@.take(i as int + 1);
            assert(next.drop_last() == text@.take(i as int));
            assert(next.last() == text@[i as int]);
        }
        put_escaped_byte(out, text[i]);
        i = i + 1;
    }
    assert(text@.take(text@.len() as int) == text@);
}

/// The name of a message type as it appears on the wire.
pub fn message_type_name(t: MessageType) -> (name: &'static str)
    ensures
        name.spec_bytes() == message_type_token(t),
{
    match t {
        MessageType::Proposal => "Proposal",
        MessageType::Acknowledgment => "Acknowledgment",
        MessageType::Commit => "Commit",
    }
}

/// The name of a lifecycle state as it appears on the wire.
pub fn state_name(s: State) -> (name: &'static str)
    ensures
        name.spec_bytes() == state_token(s),
{
    match s {
        State::Init => "Init",
        State::Running => "Running",
        State::Stopped => "Stopped",
    }
}

/// Encodes a message for the wire.
pub fn encode(message: &Message) -> (bytes: Vec<u8>)
    ensures
        bytes@ == spec_encode(message@),
{
    let mut out: Vec<u8> = Vec::new();
    put(&mut out, "{\"sender_id\":".as_bytes());
    put_decimal(&mut out, message.sender_id);
    put(&mut out, ",\"message_type\":\"".as_bytes());
    put(&mut out, message_type_name(message.message_type).as_bytes());
    put(&mut out, "\",\"proposed_state\":\"".as_bytes());
    put(&mut out, state_name(message.proposed_state).as_bytes());
    put(&mut out, "\",\"proposal_id\":\"".as_bytes());
    put_escaped(&mut out, message.proposal_id.as_str().as_bytes());
    put(&mut out, "\"}".as_bytes());
    out
}

/// The message that `bytes` stands for: the one whose encoding `bytes` is,
/// if there is one.
pub open spec fn spec_decode(bytes: Seq<u8>) -> Option<MessageView> {
    if exists|v: MessageView| spec_encode(v) == bytes {
        Some(choose|v: MessageView| spec_encode(v) == bytes)
    } else {
        None
    }
}

/// Two messages with the same encoding are the same message.
pub proof fn lemma_encode_injective(a: MessageView, b: MessageView)
    requires
        spec_encode(a) == spec_encode(b),
    ensures
        a == b,
{
    lemma_parse_of_encode(a);
    lemma_parse_of_encode(b);
}

/// Decoding the encoding of a message yields that message, equal in every
/// field, whatever its type, its state, its sender and its identifier.
pub proof fn lemma_decode_encode(v: MessageView)
    ensures
        spec_decode(spec_encode(v)) == Some(v),
{
    let found = choose|w: MessageView| spec_encode(w) == spec_encode(v);
    lemma_encode_injective(found, v);
}

/// A byte string that decodes to a message is the encoding of that message.
pub proof fn lemma_encode_decode(bytes: Seq<u8>, v: MessageView)
    requires
        spec_decode(bytes) == Some(v),
    ensures
        spec_encode(v) == bytes,
{
}

/// Decodes one message from `bytes`.
///
/// The bytes are accepted exactly when they are the encoding of a message,
/// and that message is returned. Anything else, a truncated or padded
/// encoding included, is malformed and gives `None`.
pub fn decode(bytes: &[u8]) -> (decoded: Option<Message>)
    ensures
        match decoded {
            Some(m) => spec_decode(bytes@) == Some(m@) && spec_encode(m@) == bytes@,
            None => spec_decode(bytes@) is None,
        },
{
    let decoded = read_message(bytes);
    proof {
        match parse_message(bytes@) {
            Some(v) => {
                lemma_encode_of_parse(bytes@, v);
                lemma_decode_encode(v);
            },
            None => {
                if exists|v: MessageView| spec_encode(v) == bytes@ {
                    let v = choose|v: MessageView| spec_encode(v) == bytes@;
                    lemma_parse_of_encode(v);
                }
            },
        }
    }
    decoded
}

} // verus!
