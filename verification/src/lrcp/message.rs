//! The four wire messages and their textual form.
//!
//! A message is a slash-delimited line of ASCII: `/connect/SESSION/`,
//! `/data/SESSION/POSITION/PAYLOAD/`, `/ack/SESSION/LENGTH/` and
//! `/close/SESSION/`. Numbers are decimal and fit in 32 bits. In a payload a
//! backslash is written `\\` and a slash `\/`.

use vstd::prelude::*;
use super::SessionId;
use super::MAX_PACKET_SIZE;

verus! {

/// The byte `/`, which delimits fields.
pub const SLASH: u8 = 47;

/// The byte `\`, which escapes a slash or a backslash inside a payload.
pub const BACKSLASH: u8 = 92;

/// A wire message. Each one names the session it belongs to.
#[derive(Debug, Clone, PartialEq, Eq)]
pub enum LrcpMessage {
    Connect { session: SessionId },
    Data { session: SessionId, position: u32, data: Vec<u8> },
    Ack { session: SessionId, length: u32 },
    Close { session: SessionId },
}

/// A wire message as a mathematical value.
pub enum MessageView {
    Connect { session: u32 },
    Data { session: u32, position: u32, data: Seq<u8> },
    Ack { session: u32, length: u32 },
    Close { session: u32 },
}

impl View for LrcpMessage {
    type V = MessageView;

    open spec fn view(&self) -> MessageView {
        match *self {
            LrcpMessage::Connect { session } => MessageView::Connect { session },
            LrcpMessage::Data { session, position, data } => MessageView::Data {
                session,
                position,
                data: data@,
            },
            LrcpMessage::Ack { session, length } => MessageView::Ack { session, length },
            LrcpMessage::Close { session } => MessageView::Close { session },
        }
    }
}

/// Why a datagram could not be turned into a message, or a message into a
/// datagram.
#[derive(Debug, Clone, Copy, PartialEq, Eq, Structural)]
pub enum LrcpMessageError {
    /// The bytes are none of the four wire forms.
    Parse,
    /// The message's wire form is longer than a datagram may be.
    TooLarge,
}

// ---------------------------------------------------------------------------
// The wire form, as a model
// ---------------------------------------------------------------------------

/// `connect/`
pub open spec fn word_connect() -> Seq<u8> {
    seq![99u8, 111u8, 110u8, 110u8, 101u8, 99u8, 116u8, 47u8]
}

/// `data/`
pub open spec fn word_data() -> Seq<u8> {
    seq![100u8, 97u8, 116u8, 97u8, 47u8]
}

/// `ack/`
pub open spec fn word_ack() -> Seq<u8> {
    seq![97u8, 99u8, 107u8, 47u8]
}

/// `close/`
pub open spec fn word_close() -> Seq<u8> {
    seq![99u8, 108u8, 111u8, 115u8, 101u8, 47u8]
}

/// The decimal digits of `n`, most significant first, without leading zeros.
pub open spec fn decimal(n: nat) -> Seq<u8>
    decreases n,
{
    if n < 10 {
        seq![(48 + n) as u8]
    } else {
        decimal(n / 10).push((48 + n % 10) as u8)
    }
}

/// What one payload byte becomes on the wire.
pub open spec fn escaped_byte(b: u8) -> Seq<u8> {
    if b == BACKSLASH || b == SLASH {
        seq![BACKSLASH, b]
    } else {
        seq![b]
    }
}

/// A payload as it is written on the wire.
pub open spec fn escaped(data: Seq<u8>) -> Seq<u8>
    decreases data.len(),
{
    if data.len() == 0 {
        Seq::<u8>::empty()
    } else {
        escaped_byte(data[0]) + escaped(data.skip(1))
    }
}

/// The wire form of a message.
pub open spec fn encode_spec(m: MessageView) -> Seq<u8> {
    match m {
        MessageView::Connect { session } => seq![SLASH] + word_connect() + decimal(session as nat)
            + seq![SLASH],
        MessageView::Data { session, position, data } => seq![SLASH] + word_data() + decimal(
            session as nat,
        ) + seq![SLASH] + decimal(position as nat) + seq![SLASH] + escaped(data) + seq![SLASH],
        MessageView::Ack { session, length } => seq![SLASH] + word_ack() + decimal(session as nat)
            + seq![SLASH] + decimal(length as nat) + seq![SLASH],
        MessageView::Close { session } => seq![SLASH] + word_close() + decimal(session as nat)
            + seq![SLASH],
    }
}

/// Whether `b` is one of the ASCII digits.
pub open spec fn is_digit(b: u8) -> bool {
    48 <= b && b <= 57
}

/// The number of digits that `s` begins with.
pub open spec fn digit_run(s: Seq<u8>) -> nat
    decreases s.len(),
{
    if s.len() > 0 && is_digit(s[0]) {
        1 + digit_run(s.skip(1))
    } else {
        0
    }
}

/// The number that a sequence of digits denotes. Leading zeros count for
/// nothing.
pub open spec fn digits_value(s: Seq<u8>) -> nat
    decreases s.len(),
{
    if s.len() == 0 {
        0
    } else {
        digits_value(s.drop_last()) * 10 + (s.last() - 48) as nat
    }
}

/// A numeric field at the start of `s`: one or more digits whose value fits
/// in 32 bits, and the slash that ends the field. The result is the value and
/// what follows the slash.
pub open spec fn parse_field(s: Seq<u8>) -> Option<(u32, Seq<u8>)> {
    let n = digit_run(s) as int;
    let value = digits_value(s.take(n));
    if n > 0 && value <= u32::MAX && n < s.len() && s[n] == SLASH {
        Some((value as u32, s.skip(n + 1)))
    } else {
        None
    }
}

/// The payload that `s` is the wire form of, if it is one: `s` holds no bare
/// slash, and each backslash in it is followed by a backslash or a slash.
pub open spec fn unescaped(s: Seq<u8>) -> Option<Seq<u8>>
    decreases s.len(),
{
    if s.len() == 0 {
        Some(Seq::<u8>::empty())
    } else if s[0] == BACKSLASH {
        if s.len() >= 2 && (s[1] == BACKSLASH || s[1] == SLASH) {
            match unescaped(s.skip(2)) {
                Some(rest) => Some(seq![s[1]] + rest),
                None => None,
            }
        } else {
            None
        }
    } else if s[0] == SLASH {
        None
    } else {
        match unescaped(s.skip(1)) {
            Some(rest) => Some(seq![s[0]] + rest),
            None => None,
        }
    }
}

/// The last field of a data message: an escaped payload and the closing
/// slash, with nothing after it.
pub open spec fn parse_payload(s: Seq<u8>) -> Option<Seq<u8>> {
    if s.len() > 0 && s.last() == SLASH {
        unescaped(s.drop_last())
    } else {
        None
    }
}

/// A connect message without its first slash: `connect/SESSION/`.
pub open spec fn parse_connect_spec(s: Seq<u8>) -> Option<MessageView> {
    if word_connect().is_prefix_of(s) {
        match parse_field(s.skip(8)) {
            Some((session, rest)) => if rest.len() == 0 {
                Some(MessageView::Connect { session })
            } else {
                None
            },
            None => None,
        }
    } else {
        None
    }
}

/// A data message without its first slash: `data/SESSION/POSITION/PAYLOAD/`.
pub open spec fn parse_data_spec(s: Seq<u8>) -> Option<MessageView> {
    if word_data().is_prefix_of(s) {
        match parse_field(s.skip(5)) {
            Some((session, rest)) => match parse_field(rest) {
                Some((position, payload)) => match parse_payload(payload) {
                    Some(data) => Some(MessageView::Data { session, position, data }),
                    None => None,
                },
                None => None,
            },
            None => None,
        }
    } else {
        None
    }
}

/// An acknowledgment without its first slash: `ack/SESSION/LENGTH/`.
pub open spec fn parse_ack_spec(s: Seq<u8>) -> Option<MessageView> {
    if word_ack().is_prefix_of(s) {
        match parse_field(s.skip(4)) {
            Some((session, rest)) => match parse_field(rest) {
                Some((length, end)) => if end.len() == 0 {
                    Some(MessageView::Ack { session, length })
                } else {
                    None
                },
                None => None,
            },
            None => None,
        }
    } else {
        None
    }
}

/// A close message without its first slash: `close/SESSION/`.
pub open spec fn parse_close_spec(s: Seq<u8>) -> Option<MessageView> {
    if word_close().is_prefix_of(s) {
        match parse_field(s.skip(6)) {
            Some((session, rest)) => if rest.len() == 0 {
                Some(MessageView::Close { session })
            } else {
                None
            },
            None => None,
        }
    } else {
        None
    }
}

/// The message that a datagram holds, if it holds one: a slash, and then one
/// of the four forms. A datagram that is none of them, or has anything after
/// the closing slash, holds none.
pub open spec fn parse_spec(b: Seq<u8>) -> Option<MessageView> {
    if b.len() > 0 && b[0] == SLASH {
        let s = b.skip(1);
        if parse_connect_spec(s) is Some {
            parse_connect_spec(s)
        } else if parse_data_spec(s) is Some {
            parse_data_spec(s)
        } else if parse_ack_spec(s) is Some {
            parse_ack_spec(s)
        } else {
            parse_close_spec(s)
        }
    } else {
        None
    }
}

/// The messages of a list, each as a mathematical value.
pub open spec fn message_views(messages: Seq<LrcpMessage>) -> Seq<MessageView> {
    messages.map_values(|m: LrcpMessage| m@)
}

// ---------------------------------------------------------------------------
// Encoding
// ---------------------------------------------------------------------------

/// `escaped` grows at its end as the payload does.
pub proof fn lemma_escaped_push(data: Seq<u8>, b: u8)
    ensures
        escaped(data.push(b)) == escaped(data) + escaped_byte(b),
    decreases data.len(),
{
    if data.len() == 0 {
        let single = data.push(b);
        assert(single[0] == b);
        assert(single.skip(1) =~= Seq::<u8>::empty());
        assert(escaped(single) == escaped_byte(b) + escaped(single.skip(1)));
        assert(escaped(single) =~= escaped(data) + escaped_byte(b));
    } else {
        let longer = data.push(b);
        lemma_escaped_push(data.skip(1), b);
        assert(longer.skip(1) =~= data.skip(1).push(b));
        assert(longer[0] == data[0]);
        assert(escaped(longer) == escaped_byte(data[0]) + escaped(longer.skip(1)));
        assert(escaped(data) == escaped_byte(data[0]) + escaped(data.skip(1)));
        assert(escaped(longer) =~= escaped(data) + escaped_byte(b));
    }
}

/// The wire form of a payload is at least as long as the payload and at most
/// twice as long.
pub proof fn lemma_escaped_len(data: Seq<u8>)
    ensures
        data.len() <= escaped(data).len() <= 2 * data.len(),
    decreases data.len(),
{
    if data.len() > 0 {
        lemma_escaped_len(data.skip(1));
    }
}

/// A number has between one and ten digits when it fits in 32 bits.
pub proof fn lemma_decimal_len(n: nat)
    ensures
        1 <= decimal(n).len(),
        n <= u32::MAX ==> decimal(n).len() <= 10,
        n < 10 ==> decimal(n).len() == 1,
    decreases n,
{
    if n >= 10 {
        lemma_decimal_len(n / 10);
        if n <= u32::MAX {
            lemma_decimal_len_bound(n);
        }
    }
}

/// The number of digits of `n`, by its size.
proof fn lemma_decimal_len_bound(n: nat)
    requires
        n <= u32::MAX,
    ensures
        decimal(n).len() <= 10,
{
    reveal_with_fuel(decimal, 11);
}

fn push_decimal(out: &mut Vec<u8>, n: u32)
    ensures
        final(out)@ == old(out)@ + decimal(n as nat),
    decreases n,
{
    if n >= 10 {
        push_decimal(out, n / 10);
    }
    let digit: u8 = (n % 10) as u8;
    out.push(48 + digit);
    proof {
        if n < 10 {
            assert(final(out)@ =~= old(out)@ + decimal(n as nat));
        } else {
            assert(final(out)@ =~= old(out)@ + decimal(n as nat));
        }
    }
}

fn push_tag(out: &mut Vec<u8>, tag: &[u8])
    ensures
        final(out)@ == old(out)@ + tag@,
{
    let mut i: usize = 0;
    while i < tag.len()
        invariant
            i <= tag.len(),
            out@ == old(out)@ + tag@.take(i as int),
        decreases tag.len() - i,
    {
        out.push(tag[i]);
        i += 1;
        assert(out@ =~= old(out)@ + tag@.take(i as int));
    }
    assert(tag@.take(i as int) =~= tag@);
}

fn push_escaped(out: &mut Vec<u8>, data: &[u8])
    ensures
        final(out)@ == old(out)@ + escaped(data@),
{
    let mut i: usize = 0;
    assert(data@.take(0) =~= Seq::<u8>::empty());
    while i < data.len()
        invariant
            i <= data.len(),
            out@ == old(out)@ + escaped(data@.take(i as int)),
        decreases data.len() - i,
    {
        let b = data[i];
        let ghost before = out@;
        if b == BACKSLASH || b == SLASH {
            out.push(BACKSLASH);
        }
        out.push(b);
        proof {
            lemma_escaped_push(data@.take(i as int), b);
            assert(data@.take(i as int).push(b) =~= data@.take(i + 1));
            assert(out@ =~= before + escaped_byte(b));
            assert(out@ =~= old(out)@ + escaped(data@.take(i + 1)));
        }
        i += 1;
    }
    assert(data@.take(i as int) =~= data@);
}

// ---------------------------------------------------------------------------
// Decoding
// ---------------------------------------------------------------------------

/// A sequence that begins with `k` digits has a digit run of at least `k`,
/// and of exactly `k` where the digits end there.
pub proof fn lemma_digit_run(s: Seq<u8>, k: nat)
    requires
        k <= s.len(),
        forall|j: int| 0 <= j < k ==> is_digit(#[trigger] s[j]),
    ensures
        digit_run(s) >= k,
        (k == s.len() || !is_digit(s[k as int])) ==> digit_run(s) == k,
    decreases k,
{
    if k > 0 {
        let tail = s.skip(1);
        assert forall|j: int| 0 <= j < k - 1 implies is_digit(#[trigger] tail[j]) by {
            assert(tail[j] == s[j + 1]);
        }
        lemma_digit_run(tail, (k - 1) as nat);
        if k < s.len() {
            assert(tail[k - 1] == s[k as int]);
        }
    }
}

/// The first `digit_run(s)` bytes of `s` are digits, and the next one is not.
pub proof fn lemma_digit_run_is_digits(s: Seq<u8>)
    ensures
        digit_run(s) <= s.len(),
        forall|j: int| 0 <= j < digit_run(s) ==> is_digit(#[trigger] s[j]),
        digit_run(s) < s.len() ==> !is_digit(s[digit_run(s) as int]),
    decreases s.len(),
{
    if s.len() > 0 && is_digit(s[0]) {
        let tail = s.skip(1);
        lemma_digit_run_is_digits(tail);
        assert forall|j: int| 0 <= j < digit_run(s) implies is_digit(#[trigger] s[j]) by {
            if j > 0 {
                assert(s[j] == tail[j - 1]);
            }
        }
        if digit_run(s) < s.len() {
            assert(s[digit_run(s) as int] == tail[digit_run(tail) as int]);
        }
    }
}

/// A longer prefix of digits never denotes a smaller number.
pub proof fn lemma_digits_value_grows(s: Seq<u8>, k: int, n: int)
    requires
        0 <= k <= n <= s.len(),
        forall|j: int| 0 <= j < n ==> is_digit(#[trigger] s[j]),
    ensures
        digits_value(s.take(k)) <= digits_value(s.take(n)),
    decreases n - k,
{
    if k < n {
        lemma_digits_value_grows(s, k, n - 1);
        assert(s.take(n).drop_last() =~= s.take(n - 1));
        assert(is_digit(s[n - 1]));
        assert(s.take(n).last() == s[n - 1]);
    }
}

fn has_tag(input: &[u8], tag: &[u8]) -> (found: bool)
    ensures
        found == tag@.is_prefix_of(input@),
{
    if tag.len() > input.len() {
        return false;
    }
    let mut i: usize = 0;
    while i < tag.len()
        invariant
            i <= tag.len() <= input.len(),
            forall|j: int| 0 <= j < i ==> tag@[j] == input@[j],
        decreases tag.len() - i,
    {
        if tag[i] != input[i] {
            proof {
                if tag@.is_prefix_of(input@) {
                    assert(input@.subrange(0, tag@.len() as int)[i as int] == input@[i as int]);
                }
            }
            return false;
        }
        i += 1;
    }
    assert(tag@ =~= input@.subrange(0, tag@.len() as int));
    true
}

/// A numeric field that starts at `start`: its value and the index behind
/// its slash.
fn parse_field_at(input: &[u8], start: usize) -> (field: Option<(u32, usize)>)
    requires
        start <= input.len(),
    ensures
        match field {
            Some((value, next)) => start < next <= input.len() && parse_field(
                input@.skip(start as int),
            ) == Some((value, input@.skip(next as int))),
            None => parse_field(input@.skip(start as int)) is None,
        },
{
    let ghost s = input@.skip(start as int);
    let mut i: usize = start;
    let mut value: u64 = 0;
    while i < input.len() && 48 <= input[i] && input[i] <= 57
        invariant
            start <= i <= input.len(),
            s == input@.skip(start as int),
            forall|j: int| 0 <= j < i - start ==> is_digit(#[trigger] s[j]),
            value == digits_value(s.take(i - start)),
            value <= u32::MAX,
        decreases input.len() - i,
    {
        let digit: u64 = (input[i] - 48) as u64;
        let ghost k = i - start;
        proof {
            assert(s[k] == input@[i as int]);
            assert(s.take(k + 1).drop_last() =~= s.take(k));
            assert(s.take(k + 1).last() == s[k]);
        }
        let longer: u64 = value * 10 + digit;
        if longer > 0xffff_ffff {
            proof {
                lemma_digit_run(s, (k + 1) as nat);
                let n = digit_run(s) as int;
                lemma_digit_run_is_digits(s);
                lemma_digits_value_grows(s, k + 1, n);
            }
            return None;
        }
        value = longer;
        i += 1;
    }
    proof {
        let k = (i - start) as nat;
        if i < input.len() {
            assert(s[k as int] == input@[i as int]);
        }
        lemma_digit_run(s, k);
    }
    if i == start || i >= input.len() || input[i] != SLASH {
        proof {
            if i < input.len() {
                assert(s[i - start] == input@[i as int]);
            }
        }
        return None;
    }
    proof {
        assert(s[i - start] == input@[i as int]);
        assert(s.skip(i - start + 1) =~= input@.skip(i + 1));
    }
    Some((value as u32, i + 1))
}

/// The payload field that starts at `start` and runs to the end of `input`.
fn parse_payload_at(input: &[u8], start: usize) -> (payload: Option<Vec<u8>>)
    requires
        start <= input.len(),
    ensures
        match payload {
            Some(data) => parse_payload(input@.skip(start as int)) == Some(data@),
            None => parse_payload(input@.skip(start as int)) is None,
        },
{
    let ghost field = input@.skip(start as int);
    if start == input.len() || input[input.len() - 1] != SLASH {
        proof {
            if start < input.len() {
                assert(field.last() == input@[input.len() - 1]);
            }
        }
        return None;
    }
    let end: usize = input.len() - 1;
    let ghost body = input@.subrange(start as int, end as int);
    proof {
        assert(field.last() == input@[end as int]);
        assert(field.drop_last() =~= body);
    }
    let mut out: Vec<u8> = Vec::new();
    let mut i: usize = start;
    while i < end
        invariant
            start <= i <= end,
            end + 1 == input.len(),
            body == input@.subrange(start as int, end as int),
            parse_payload(input@.skip(start as int)) == unescaped(body),
            unescaped(body) == match unescaped(input@.subrange(i as int, end as int)) {
                Some(rest) => Some(out@ + rest),
                None => None,
            },
        decreases end - i,
    {
        let ghost here = input@.subrange(i as int, end as int);
        let ghost before = out@;
        let b = input[i];
        proof {
            assert(here[0] == b);
        }
        if b == BACKSLASH {
            if i + 1 < end && (input[i + 1] == BACKSLASH || input[i + 1] == SLASH) {
                out.push(input[i + 1]);
                proof {
                    assert(here[1] == input@[i + 1]);
                    assert(here.skip(2) =~= input@.subrange(i + 2, end as int));
                    match unescaped(here.skip(2)) {
                        Some(rest) => {
                            assert(before + (seq![here[1]] + rest) =~= out@ + rest);
                        },
                        None => {},
                    }
                }
                i += 2;
            } else {
                proof {
                    assert(here.len() == end - i);
                    if i + 1 < end {
                        assert(here[1] == input@[i + 1]);
                    }
                    assert(unescaped(here) is None);
                }
                return None;
            }
        } else if b == SLASH {
            proof {
                assert(here.len() == end - i);
                assert(unescaped(here) is None);
            }
            return None;
        } else {
            out.push(b);
            proof {
                assert(here.skip(1) =~= input@.subrange(i + 1, end as int));
                match unescaped(here.skip(1)) {
                    Some(rest) => {
                        assert(before + (seq![here[0]] + rest) =~= out@ + rest);
                    },
                    None => {},
                }
            }
            i += 1;
        }
    }
    proof {
        assert(input@.subrange(i as int, end as int) =~= Seq::<u8>::empty());
        assert(out@ + Seq::<u8>::empty() =~= out@);
    }
    Some(out)
}

// ---------------------------------------------------------------------------
// What holds of the two directions together
// ---------------------------------------------------------------------------

/// The digits of a number are digits, and they denote that number.
pub proof fn lemma_decimal_value(n: nat)
    ensures
        forall|j: int| 0 <= j < decimal(n).len() ==> is_digit(#[trigger] decimal(n)[j]),
        digits_value(decimal(n)) == n,
    decreases n,
{
    let digits = decimal(n);
    if n < 10 {
        assert(digits.drop_last() =~= Seq::<u8>::empty());
        assert(digits_value(digits.drop_last()) == 0);
        assert(digits.last() == (48 + n) as u8);
    } else {
        lemma_decimal_value(n / 10);
        let front = decimal(n / 10);
        assert(digits.drop_last() =~= front);
        assert(digits.last() == (48 + n % 10) as u8);
        assert forall|j: int| 0 <= j < digits.len() implies is_digit(#[trigger] digits[j]) by {
            if j < front.len() {
                assert(digits[j] == front[j]);
            }
        }
    }
}

/// A number written in decimal and closed by a slash reads back as that
/// number, with whatever came after the slash left over.
pub proof fn lemma_parse_field_decimal(n: u32, rest: Seq<u8>)
    ensures
        parse_field(decimal(n as nat) + seq![SLASH] + rest) == Some((n, rest)),
{
    let digits = decimal(n as nat);
    let s = digits + seq![SLASH] + rest;
    let k = digits.len();
    lemma_decimal_value(n as nat);
    assert forall|j: int| 0 <= j < k implies is_digit(#[trigger] s[j]) by {
        assert(s[j] == digits[j]);
    }
    assert(s[k as int] == SLASH);
    lemma_digit_run(s, k);
    assert(s.take(k as int) =~= digits);
    assert(s.skip(k as int + 1) =~= rest);
}

/// Unescaping undoes escaping, whatever bytes the payload holds.
pub proof fn lemma_unescaped_escaped(data: Seq<u8>)
    ensures
        unescaped(escaped(data)) == Some(data),
    decreases data.len(),
{
    if data.len() > 0 {
        let b = data[0];
        let tail = data.skip(1);
        let wire = escaped(data);
        lemma_unescaped_escaped(tail);
        assert(wire == escaped_byte(b) + escaped(tail));
        if b == BACKSLASH || b == SLASH {
            assert(wire[0] == BACKSLASH);
            assert(wire[1] == b);
            assert(wire.skip(2) =~= escaped(tail));
        } else {
            assert(wire[0] == b);
            assert(wire.skip(1) =~= escaped(tail));
        }
        assert(seq![b] + tail =~= data);
    }
}

/// Decoding undoes encoding: every message, read back from its wire form, is
/// the message that was written.
pub proof fn lemma_round_trip(m: MessageView)
    ensures
        parse_spec(encode_spec(m)) == Some(m),
{
    let b = encode_spec(m);
    let s = b.skip(1);
    let none = Seq::<u8>::empty();
    assert(b[0] == SLASH);
    match m {
        MessageView::Connect { session } => {
            let body = decimal(session as nat) + seq![SLASH] + none;
            assert(s.subrange(0, 8) =~= word_connect());
            assert(s.skip(8) =~= body);
            lemma_parse_field_decimal(session, none);
        },
        MessageView::Data { session, position, data } => {
            let payload = escaped(data) + seq![SLASH];
            let fields = decimal(position as nat) + seq![SLASH] + payload;
            let body = decimal(session as nat) + seq![SLASH] + fields;
            assert(s[0] == 100u8);
            assert(!word_connect().is_prefix_of(s)) by {
                if word_connect().is_prefix_of(s) {
                    assert(s.subrange(0, 8)[0] == word_connect()[0]);
                }
            }
            assert(s.subrange(0, 5) =~= word_data());
            assert(s.skip(5) =~= body);
            lemma_parse_field_decimal(session, fields);
            lemma_parse_field_decimal(position, payload);
            lemma_unescaped_escaped(data);
            assert(payload.last() == SLASH);
            assert(payload.drop_last() =~= escaped(data));
        },
        MessageView::Ack { session, length } => {
            let fields = decimal(length as nat) + seq![SLASH] + none;
            let body = decimal(session as nat) + seq![SLASH] + fields;
            assert(s[0] == 97u8);
            assert(!word_connect().is_prefix_of(s)) by {
                if word_connect().is_prefix_of(s) {
                    assert(s.subrange(0, 8)[0] == word_connect()[0]);
                }
            }
            assert(!word_data().is_prefix_of(s)) by {
                if word_data().is_prefix_of(s) {
                    assert(s.subrange(0, 5)[0] == word_data()[0]);
                }
            }
            assert(s.subrange(0, 4) =~= word_ack());
            assert(s.skip(4) =~= body);
            lemma_parse_field_decimal(session, fields);
            lemma_parse_field_decimal(length, none);
        },
        MessageView::Close { session } => {
            let body = decimal(session as nat) + seq![SLASH] + none;
            assert(s[0] == 99u8);
            assert(s[1] == 108u8);
            assert(!word_connect().is_prefix_of(s)) by {
                if word_connect().is_prefix_of(s) {
                    assert(s.subrange(0, 8)[1] == word_connect()[1]);
                }
            }
            assert(!word_data().is_prefix_of(s)) by {
                if word_data().is_prefix_of(s) {
                    assert(s.subrange(0, 5)[0] == word_data()[0]);
                }
            }
            assert(!word_ack().is_prefix_of(s)) by {
                if word_ack().is_prefix_of(s) {
                    assert(s.subrange(0, 4)[0] == word_ack()[0]);
                }
            }
            assert(s.subrange(0, 6) =~= word_close());
            assert(s.skip(6) =~= body);
            lemma_parse_field_decimal(session, none);
        },
    }
}

/// No two messages have the same wire form.
pub proof fn lemma_encode_is_injective(a: MessageView, b: MessageView)
    requires
        encode_spec(a) == encode_spec(b),
    ensures
        a == b,
{
    lemma_round_trip(a);
    lemma_round_trip(b);
}

/// A payload survives the wire whatever it holds, slashes and backslashes
/// included: a data message reads back with exactly the bytes it was given.
pub proof fn lemma_payload_survives(session: u32, position: u32, data: Seq<u8>)
    ensures
        parse_payload(escaped(data) + seq![SLASH]) == Some(data),
        parse_spec(encode_spec(MessageView::Data { session, position, data })) == Some(
            MessageView::Data { session, position, data },
        ),
{
    let payload = escaped(data) + seq![SLASH];
    lemma_unescaped_escaped(data);
    assert(payload.last() == SLASH);
    assert(payload.drop_last() =~= escaped(data));
    lemma_round_trip(MessageView::Data { session, position, data });
}

// ---------------------------------------------------------------------------
// The four forms, read
// ---------------------------------------------------------------------------

fn nothing_left(input: &[u8]) -> (rest: &[u8])
    ensures
        rest@.len() == 0,
{
    vstd::slice::slice_subrange(input, input.len(), input.len())
}

/// Reads `connect/SESSION/`. What is left over is always empty.
pub fn parse_connect(input: &[u8]) -> (parsed: Result<(&[u8], LrcpMessage), LrcpMessageError>)
    ensures
        match parsed {
            Ok((rest, message)) => rest@.len() == 0 && parse_connect_spec(input@) == Some(
                message@,
            ),
            Err(error) => parse_connect_spec(input@) is None && error == LrcpMessageError::Parse,
        },
{
    let word: [u8; 8] = [99, 111, 110, 110, 101, 99, 116, 47];
    assert(word@ =~= word_connect());
    if !has_tag(input, word.as_slice()) {
        return Err(LrcpMessageError::Parse);
    }
    match parse_field_at(input, 8) {
        Some((session, next)) => {
            if next == input.len() {
                Ok((nothing_left(input), LrcpMessage::Connect { session }))
            } else {
                Err(LrcpMessageError::Parse)
            }
        },
        None => Err(LrcpMessageError::Parse),
    }
}

/// Reads `data/SESSION/POSITION/PAYLOAD/` and unescapes the payload. What
/// is left over is always empty.
pub fn parse_data(input: &[u8]) -> (parsed: Result<(&[u8], LrcpMessage), LrcpMessageError>)
    ensures
        match parsed {
            Ok((rest, message)) => rest@.len() == 0 && parse_data_spec(input@) == Some(message@),
            Err(error) => parse_data_spec(input@) is None && error == LrcpMessageError::Parse,
        },
{
    let word: [u8; 5] = [100, 97, 116, 97, 47];
    assert(word@ =~= word_data());
    if !has_tag(input, word.as_slice()) {
        return Err(LrcpMessageError::Parse);
    }
    match parse_field_at(input, 5) {
        Some((session, next)) => match parse_field_at(input, next) {
            Some((position, start)) => match parse_payload_at(input, start) {
                Some(data) => Ok(
                    (nothing_left(input), LrcpMessage::Data { session, position, data }),
                ),
                None => Err(LrcpMessageError::Parse),
            },
            None => Err(LrcpMessageError::Parse),
        },
        None => Err(LrcpMessageError::Parse),
    }
}

/// Reads `ack/SESSION/LENGTH/`. What is left over is always empty.
pub fn parse_ack(input: &[u8]) -> (parsed: Result<(&[u8], LrcpMessage), LrcpMessageError>)
    ensures
        match parsed {
            Ok((rest, message)) => rest@.len() == 0 && parse_ack_spec(input@) == Some(message@),
            Err(error) => parse_ack_spec(input@) is None && error == LrcpMessageError::Parse,
        },
{
    let word: [u8; 4] = [97, 99, 107, 47];
    assert(word@ =~= word_ack());
    if !has_tag(input, word.as_slice()) {
        return Err(LrcpMessageError::Parse);
    }
    match parse_field_at(input, 4) {
        Some((session, next)) => match parse_field_at(input, next) {
            Some((length, end)) => {
                if end == input.len() {
                    Ok((nothing_left(input), LrcpMessage::Ack { session, length }))
                } else {
                    Err(LrcpMessageError::Parse)
                }
            },
            None => Err(LrcpMessageError::Parse),
        },
        None => Err(LrcpMessageError::Parse),
    }
}

/// Reads `close/SESSION/`. What is left over is always empty.
pub fn parse_close(input: &[u8]) -> (parsed: Result<(&[u8], LrcpMessage), LrcpMessageError>)
    ensures
        match parsed {
            Ok((rest, message)) => rest@.len() == 0 && parse_close_spec(input@) == Some(message@),
            Err(error) => parse_close_spec(input@) is None && error == LrcpMessageError::Parse,
        },
{
    let word: [u8; 6] = [99, 108, 111, 115, 101, 47];
    assert(word@ =~= word_close());
    if !has_tag(input, word.as_slice()) {
        return Err(LrcpMessageError::Parse);
    }
    match parse_field_at(input, 6) {
        Some((session, next)) => {
            if next == input.len() {
                Ok((nothing_left(input), LrcpMessage::Close { session }))
            } else {
                Err(LrcpMessageError::Parse)
            }
        },
        None => Err(LrcpMessageError::Parse),
    }
}

/// Reads one datagram: a slash, and then the first of the four forms that
/// the rest is. What is left over is always empty.
pub fn parse_message(input: &[u8]) -> (parsed: Result<(&[u8], LrcpMessage), LrcpMessageError>)
    ensures
        match parsed {
            Ok((rest, message)) => rest@.len() == 0 && parse_spec(input@) == Some(message@),
            Err(error) => parse_spec(input@) is None && error == LrcpMessageError::Parse,
        },
{
    if input.len() == 0 || input[0] != SLASH {
        return Err(LrcpMessageError::Parse);
    }
    let body = vstd::slice::slice_subrange(input, 1, input.len());
    assert(body@ =~= input@.skip(1));
    match parse_connect(body) {
        Ok(found) => {
            return Ok(found);
        },
        Err(_) => {},
    }
    match parse_data(body) {
        Ok(found) => {
            return Ok(found);
        },
        Err(_) => {},
    }
    match parse_ack(body) {
        Ok(found) => {
            return Ok(found);
        },
        Err(_) => {},
    }
    parse_close(body)
}

impl LrcpMessage {
    /// The session that the message is addressed to.
    pub fn session_id(&self) -> (id: SessionId)
        ensures
            id == match self@ {
                MessageView::Connect { session } => session,
                MessageView::Data { session, .. } => session,
                MessageView::Ack { session, .. } => session,
                MessageView::Close { session } => session,
            },
    {
        match self {
            LrcpMessage::Connect { session } => *session,
            LrcpMessage::Data { session, .. } => *session,
            LrcpMessage::Ack { session, .. } => *session,
            LrcpMessage::Close { session } => *session,
        }
    }

    /// The message's wire form, whatever its length.
    pub fn to_vec(&self) -> (bytes: Vec<u8>)
        ensures
            bytes@ == encode_spec(self@),
    {
        let mut out: Vec<u8> = Vec::new();
        match self {
            LrcpMessage::Connect { session } => {
                let tag: [u8; 9] = [47, 99, 111, 110, 110, 101, 99, 116, 47];
                assert(tag@ =~= seq![SLASH] + word_connect());
                push_tag(&mut out, tag.as_slice());
                push_decimal(&mut out, *session);
                out.push(SLASH);
            },
            LrcpMessage::Data { session, position, data } => {
                let tag: [u8; 6] = [47, 100, 97, 116, 97, 47];
                assert(tag@ =~= seq![SLASH] + word_data());
                push_tag(&mut out, tag.as_slice());
                push_decimal(&mut out, *session);
                out.push(SLASH);
                push_decimal(&mut out, *position);
                out.push(SLASH);
                push_escaped(&mut out, data.as_slice());
                out.push(SLASH);
            },
            LrcpMessage::Ack { session, length } => {
                let tag: [u8; 5] = [47, 97, 99, 107, 47];
                assert(tag@ =~= seq![SLASH] + word_ack());
                push_tag(&mut out, tag.as_slice());
                push_decimal(&mut out, *session);
                out.push(SLASH);
                push_decimal(&mut out, *length);
                out.push(SLASH);
            },
            LrcpMessage::Close { session } => {
                let tag: [u8; 7] = [47, 99, 108, 111, 115, 101, 47];
                assert(tag@ =~= seq![SLASH] + word_close());
                push_tag(&mut out, tag.as_slice());
                push_decimal(&mut out, *session);
                out.push(SLASH);
            },
        }
        assert(out@ =~= encode_spec(self@));
        out
    }

    /// The message's wire form as a datagram: refused where it is longer
    /// than a datagram may be.
    pub fn to_datagram(&self) -> (datagram: Result<Vec<u8>, LrcpMessageError>)
        ensures
            match datagram {
                Ok(bytes) => bytes@ == encode_spec(self@) && bytes@.len() <= MAX_PACKET_SIZE,
                Err(error) => encode_spec(self@).len() > MAX_PACKET_SIZE && error
                    == LrcpMessageError::TooLarge,
            },
    {
        let bytes = self.to_vec();
        if bytes.len() > MAX_PACKET_SIZE {
            Err(LrcpMessageError::TooLarge)
        } else {
            Ok(bytes)
        }
    }

    /// Reads one datagram. It is a message exactly where it is one of the
    /// four wire forms from its first byte to its last.
    pub fn from(input: &[u8]) -> (decoded: Result<LrcpMessage, LrcpMessageError>)
        ensures
            match decoded {
                Ok(message) => parse_spec(input@) == Some(message@),
                Err(error) => parse_spec(input@) is None && error == LrcpMessageError::Parse,
            },
    {
        match parse_message(input) {
            Ok((_, message)) => Ok(message),
            Err(error) => Err(error),
        }
    }
}

} // verus!
