//! The wire codec: length-prefixed big-endian binary encoding.
//!
//! Primitive encodings: `u8` is one byte; `u16` and `u32` are big-endian and
//! fixed width; a string is one length byte followed by that many ASCII
//! bytes; an array is one count byte followed by that many encoded elements.
//! A message is a single identifier byte followed by its body fields in
//! declared order.

use crate::msg::{IAmCamera, IncomingV, OutgoingV, PlateV, TicketV};
use vstd::prelude::*;
use vstd::string::StringSliceAdditionalSpecFns;
use vstd::utf8::is_ascii_chars;

verus! {

broadcast use vstd::string::group_string_axioms;

/// A codec failure.
#[derive(Clone, Copy, Debug, PartialEq, Eq, Structural)]
pub enum Error {
    /// The input ended in the middle of a value.
    Eof,
    /// A string byte or character was not 7-bit ASCII.
    ExpectedAsciiCharacter,
    /// Input remained after a complete value.
    TrailingBytes,
    /// A string of more than 255 bytes cannot be encoded.
    StringTooLong,
    /// An array of more than 255 elements cannot be encoded.
    ArrayTooLong,
    /// The identifier byte named no known message.
    UnrecognizedMessage,
}

impl Error {
    /// A short ASCII description of the failure.
    pub fn message(&self) -> (r: &'static str)
        ensures
            self is Eof ==> r@ == "unexpected end of input"@,
            self is ExpectedAsciiCharacter ==> r@ == "expected an ASCII character"@,
            self is TrailingBytes ==> r@ == "trailing bytes"@,
            self is StringTooLong ==> r@ == "the provided string exceeds the max of 255 bytes"@,
            self is ArrayTooLong ==> r@ == "the provided slice or array exceeds the max of 255 elements"@,
            self is UnrecognizedMessage ==> r@ == "unrecognized message"@,
    {
        match self {
            Error::Eof => "unexpected end of input",
            Error::ExpectedAsciiCharacter => "expected an ASCII character",
            Error::TrailingBytes => "trailing bytes",
            Error::StringTooLong => "the provided string exceeds the max of 255 bytes",
            Error::ArrayTooLong => "the provided slice or array exceeds the max of 255 elements",
            Error::UnrecognizedMessage => "unrecognized message",
        }
    }
}

// ---------------------------------------------------------------------------
// Primitive encodings, as byte sequences.
// ---------------------------------------------------------------------------

/// The two big-endian bytes of `v`.
pub open spec fn u16_be(v: u16) -> Seq<u8> {
    seq![(v / 0x100) as u8, (v % 0x100) as u8]
}

/// The four big-endian bytes of `v`.
pub open spec fn u32_be(v: u32) -> Seq<u8> {
    seq![
        (v / 0x1000000) as u8,
        ((v / 0x10000) % 0x100) as u8,
        ((v / 0x100) % 0x100) as u8,
        (v % 0x100) as u8,
    ]
}

/// The value of two big-endian bytes.
pub open spec fn u16_val(b0: u8, b1: u8) -> u16 {
    (b0 * 0x100 + b1) as u16
}

/// The value of four big-endian bytes.
pub open spec fn u32_val(b0: u8, b1: u8, b2: u8, b3: u8) -> u32 {
    (b0 * 0x1000000 + b1 * 0x10000 + b2 * 0x100 + b3) as u32
}

/// Reading back the big-endian bytes of a `u16` gives the value.
pub proof fn lemma_u16_val_be(v: u16)
    ensures
        u16_val(u16_be(v)[0], u16_be(v)[1]) == v,
{
}

/// Encoding the value of two bytes gives back the bytes.
pub proof fn lemma_u16_be_val(b0: u8, b1: u8)
    ensures
        u16_be(u16_val(b0, b1)) == seq![b0, b1],
{
    assert(u16_be(u16_val(b0, b1)) =~= seq![b0, b1]);
}

/// Reading back the big-endian bytes of a `u32` gives the value.
pub proof fn lemma_u32_val_be(v: u32)
    ensures
        u32_val(u32_be(v)[0], u32_be(v)[1], u32_be(v)[2], u32_be(v)[3]) == v,
{
}

/// Encoding the value of four bytes gives back the bytes.
pub proof fn lemma_u32_be_val(b0: u8, b1: u8, b2: u8, b3: u8)
    ensures
        u32_be(u32_val(b0, b1, b2, b3)) == seq![b0, b1, b2, b3],
{
    assert(u32_be(u32_val(b0, b1, b2, b3)) =~= seq![b0, b1, b2, b3]);
}

// ---------------------------------------------------------------------------
// Strings: one length byte, then the ASCII bytes.
// ---------------------------------------------------------------------------

/// The ASCII bytes of a character sequence.
pub open spec fn str_bytes(s: Seq<char>) -> Seq<u8> {
    Seq::new(s.len(), |i: int| s[i] as u8)
}

/// The characters of an ASCII byte sequence.
pub open spec fn bytes_chars(b: Seq<u8>) -> Seq<char> {
    Seq::new(b.len(), |i: int| b[i] as char)
}

/// Whether `s` can be encoded as a wire string.
pub open spec fn str_ok(s: Seq<char>) -> bool {
    s.len() <= 255 && is_ascii_chars(s)
}

/// The wire encoding of a string: length byte, then ASCII bytes.
pub open spec fn str_enc(s: Seq<char>) -> Seq<u8> {
    seq![s.len() as u8] + str_bytes(s)
}

/// An ASCII byte survives the round trip through `char`.
pub proof fn lemma_byte_char_byte(b: u8)
    requires
        b < 0x80,
    ensures
        (b as char) as u8 == b,
        '\0' <= (b as char) <= '\u{7f}',
{
}

/// An ASCII character survives the round trip through `u8`.
pub proof fn lemma_char_byte_char(c: char)
    requires
        '\0' <= c <= '\u{7f}',
    ensures
        (c as u8) as char == c,
        (c as u8) < 0x80,
{
}

/// Decoding the encoded bytes of an ASCII string gives back its characters.
pub proof fn lemma_chars_bytes_chars(s: Seq<char>)
    requires
        is_ascii_chars(s),
    ensures
        bytes_chars(str_bytes(s)) == s,
        forall|i: int| 0 <= i < s.len() ==> str_bytes(s)[i] < 0x80,
{
    assert forall|i: int| 0 <= i < s.len() implies str_bytes(s)[i] < 0x80 && bytes_chars(
        str_bytes(s),
    )[i] == s[i] by {
        lemma_char_byte_char(s[i]);
    }
    assert(bytes_chars(str_bytes(s)) =~= s);
}

/// Encoding the characters of ASCII bytes gives back the bytes.
pub proof fn lemma_bytes_chars_bytes(b: Seq<u8>)
    requires
        forall|i: int| 0 <= i < b.len() ==> b[i] < 0x80,
    ensures
        str_bytes(bytes_chars(b)) == b,
        is_ascii_chars(bytes_chars(b)),
{
    assert forall|i: int| 0 <= i < b.len() implies str_bytes(bytes_chars(b))[i] == b[i] && '\0'
        <= bytes_chars(b)[i] <= '\u{7f}' by {
        lemma_byte_char_byte(b[i]);
    }
    assert(str_bytes(bytes_chars(b)) =~= b);
}

// ---------------------------------------------------------------------------
// Decoding, as a partial function from byte sequences to values.
// ---------------------------------------------------------------------------

/// The outcome of decoding a value from the front of a byte sequence:
/// a value together with the number of bytes it occupies, or a report
/// that the input ended too early, or that the input can never begin
/// a valid value however it is extended.
pub enum Decoded<T> {
    Found(T, int),
    Truncated,
    Malformed,
}

/// Decode a `u8` from the front of `b`.
pub open spec fn dec_u8(b: Seq<u8>) -> Decoded<u8> {
    if b.len() < 1 {
        Decoded::Truncated
    } else {
        Decoded::Found(b[0], 1)
    }
}

/// Decode a big-endian `u16` from the front of `b`.
pub open spec fn dec_u16(b: Seq<u8>) -> Decoded<u16> {
    if b.len() < 2 {
        Decoded::Truncated
    } else {
        Decoded::Found(u16_val(b[0], b[1]), 2)
    }
}

/// Decode a big-endian `u32` from the front of `b`.
pub open spec fn dec_u32(b: Seq<u8>) -> Decoded<u32> {
    if b.len() < 4 {
        Decoded::Truncated
    } else {
        Decoded::Found(u32_val(b[0], b[1], b[2], b[3]), 4)
    }
}

/// Decode a length-prefixed ASCII string from the front of `b`.
pub open spec fn dec_str(b: Seq<u8>) -> Decoded<Seq<char>> {
    if b.len() < 1 {
        Decoded::Truncated
    } else {
        let n = b[0] as int;
        if b.len() < 1 + n {
            Decoded::Truncated
        } else if exists|i: int| 1 <= i < 1 + n && b[i] >= 0x80 {
            Decoded::Malformed
        } else {
            Decoded::Found(bytes_chars(b.subrange(1, 1 + n)), 1 + n)
        }
    }
}

/// Decoding inverts encoding: a wire string followed by anything decodes
/// to the string itself.
pub proof fn lemma_dec_str_enc(s: Seq<char>, rest: Seq<u8>)
    requires
        str_ok(s),
    ensures
        dec_str(str_enc(s) + rest) == Decoded::Found(s, 1 + s.len() as int),
{
    let b = str_enc(s) + rest;
    lemma_chars_bytes_chars(s);
    assert(b.subrange(1, 1 + s.len() as int) =~= str_bytes(s));
    assert forall|i: int| 1 <= i < 1 + s.len() implies b[i] < 0x80 by {
        assert(b[i] == str_bytes(s)[i - 1]);
    }
    assert(bytes_chars(b.subrange(1, 1 + s.len() as int)) == s);
}

/// A decoded wire string re-encodes to exactly the bytes it came from.
pub proof fn lemma_enc_str_dec(b: Seq<u8>, s: Seq<char>, n: int)
    requires
        dec_str(b) == Decoded::Found(s, n),
    ensures
        str_ok(s),
        str_enc(s) == b.take(n),
        1 <= n <= b.len(),
    {
    let len = b[0] as int;
    lemma_bytes_chars_bytes(b.subrange(1, 1 + len));
    assert(str_enc(s) =~= b.take(n));
}

// ---------------------------------------------------------------------------
// Message encodings, as byte sequences over message views.
// ---------------------------------------------------------------------------

/// The concatenated big-endian encodings of `roads`.
pub open spec fn roads_bytes(roads: Seq<u16>) -> Seq<u8>
    decreases roads.len(),
{
    if roads.len() == 0 {
        Seq::empty()
    } else {
        u16_be(roads[0]) + roads_bytes(roads.skip(1))
    }
}

/// Whether `roads` can be encoded as a wire array.
pub open spec fn roads_ok(roads: Seq<u16>) -> bool {
    roads.len() <= 255
}

/// The wire form of an `Error` message.
pub open spec fn enc_error(msg: Seq<char>) -> Seq<u8> {
    seq![0x10u8] + str_enc(msg)
}

/// The wire form of a `Plate` message.
pub open spec fn enc_plate(p: PlateV) -> Seq<u8> {
    seq![0x20u8] + str_enc(p.plate) + u32_be(p.timestamp)
}

/// The wire form of a `Ticket` message.
pub open spec fn enc_ticket(t: TicketV) -> Seq<u8> {
    seq![0x21u8] + str_enc(t.plate) + u16_be(t.road) + u16_be(t.mile1) + u32_be(t.timestamp1)
        + u16_be(t.mile2) + u32_be(t.timestamp2) + u16_be(t.speed)
}

/// The wire form of a `WantHeartbeat` message.
pub open spec fn enc_want_heartbeat(interval: u32) -> Seq<u8> {
    seq![0x40u8] + u32_be(interval)
}

/// The wire form of a `Heartbeat` message.
pub open spec fn enc_heartbeat() -> Seq<u8> {
    seq![0x41u8]
}

/// The wire form of an `IAmCamera` message.
pub open spec fn enc_i_am_camera(c: IAmCamera) -> Seq<u8> {
    seq![0x80u8] + u16_be(c.road) + u16_be(c.mile) + u16_be(c.limit)
}

/// The wire form of an `IAmDispatcher` message.
pub open spec fn enc_i_am_dispatcher(roads: Seq<u16>) -> Seq<u8> {
    seq![0x81u8, roads.len() as u8] + roads_bytes(roads)
}

/// Whether an incoming message can be encoded.
pub open spec fn incoming_ok(m: IncomingV) -> bool {
    match m {
        IncomingV::IAmCamera(_) => true,
        IncomingV::IAmDispatcher(roads) => roads_ok(roads),
        IncomingV::WantHeartbeat(_) => true,
        IncomingV::Plate(p) => str_ok(p.plate),
    }
}

/// The wire form of an incoming message.
pub open spec fn enc_incoming(m: IncomingV) -> Seq<u8> {
    match m {
        IncomingV::IAmCamera(c) => enc_i_am_camera(c),
        IncomingV::IAmDispatcher(roads) => enc_i_am_dispatcher(roads),
        IncomingV::WantHeartbeat(interval) => enc_want_heartbeat(interval),
        IncomingV::Plate(p) => enc_plate(p),
    }
}

/// Whether an outgoing message can be encoded.
pub open spec fn outgoing_ok(m: OutgoingV) -> bool {
    match m {
        OutgoingV::Heartbeat => true,
        OutgoingV::Error(msg) => str_ok(msg),
        OutgoingV::Ticket(t) => str_ok(t.plate),
    }
}

/// The wire form of an outgoing message.
pub open spec fn enc_outgoing(m: OutgoingV) -> Seq<u8> {
    match m {
        OutgoingV::Heartbeat => enc_heartbeat(),
        OutgoingV::Error(msg) => enc_error(msg),
        OutgoingV::Ticket(t) => enc_ticket(t),
    }
}

/// Appending one road extends the encoding by its two bytes.
pub proof fn lemma_roads_bytes_push(s: Seq<u16>, v: u16)
    ensures
        roads_bytes(s.push(v)) == roads_bytes(s) + u16_be(v),
    decreases s.len(),
{
    if s.len() == 0 {
        assert(s.push(v).skip(1) =~= Seq::<u16>::empty());
        assert(roads_bytes(s.push(v)) == u16_be(v) + roads_bytes(Seq::<u16>::empty()));
        assert(u16_be(v) + roads_bytes(Seq::<u16>::empty()) =~= u16_be(v));
        assert(roads_bytes(s) + u16_be(v) =~= u16_be(v));
    } else {
        assert(s.push(v)[0] == s[0]);
        assert(s.push(v).skip(1) =~= s.skip(1).push(v));
        lemma_roads_bytes_push(s.skip(1), v);
        assert(roads_bytes(s.push(v)) == u16_be(s[0]) + (roads_bytes(s.skip(1)) + u16_be(v)));
        assert(u16_be(s[0]) + (roads_bytes(s.skip(1)) + u16_be(v)) =~= (u16_be(s[0]) + roads_bytes(
            s.skip(1),
        )) + u16_be(v));
        assert(roads_bytes(s) == u16_be(s[0]) + roads_bytes(s.skip(1)));
    }
}

/// The encoding of `roads` has two bytes per road.
pub proof fn lemma_roads_bytes_len(s: Seq<u16>)
    ensures
        roads_bytes(s).len() == 2 * s.len(),
    decreases s.len(),
{
    if s.len() > 0 {
        lemma_roads_bytes_len(s.skip(1));
    }
}

/// The two bytes at position `2 * i` of the encoding are road `i`'s.
pub proof fn lemma_roads_bytes_index(s: Seq<u16>, i: int)
    requires
        0 <= i < s.len(),
    ensures
        roads_bytes(s)[2 * i] == (s[i] / 0x100) as u8,
        roads_bytes(s)[2 * i + 1] == (s[i] % 0x100) as u8,
    decreases s.len(),
{
    lemma_roads_bytes_len(s.skip(1));
    if i > 0 {
        lemma_roads_bytes_index(s.skip(1), i - 1);
    }
}

// ---------------------------------------------------------------------------
// Message decodings.
// ---------------------------------------------------------------------------

/// Decode a count-prefixed array of big-endian `u16` values.
pub open spec fn dec_roads(b: Seq<u8>) -> Decoded<Seq<u16>> {
    if b.len() < 1 {
        Decoded::Truncated
    } else {
        let n = b[0] as int;
        if b.len() < 1 + 2 * n {
            Decoded::Truncated
        } else {
            Decoded::Found(
                Seq::new(n as nat, |i: int| u16_val(b[1 + 2 * i], b[2 + 2 * i])),
                1 + 2 * n,
            )
        }
    }
}

/// Decode the body of a `Plate` message.
pub open spec fn dec_plate_body(b: Seq<u8>) -> Decoded<PlateV> {
    match dec_str(b) {
        Decoded::Found(s, n) => if b.len() < n + 4 {
            Decoded::Truncated
        } else {
            Decoded::Found(
                PlateV { plate: s, timestamp: u32_val(b[n], b[n + 1], b[n + 2], b[n + 3]) },
                n + 4,
            )
        },
        Decoded::Truncated => Decoded::Truncated,
        Decoded::Malformed => Decoded::Malformed,
    }
}

/// Decode the body of an `IAmCamera` message.
pub open spec fn dec_camera_body(b: Seq<u8>) -> Decoded<IAmCamera> {
    if b.len() < 6 {
        Decoded::Truncated
    } else {
        Decoded::Found(
            IAmCamera {
                road: u16_val(b[0], b[1]),
                mile: u16_val(b[2], b[3]),
                limit: u16_val(b[4], b[5]),
            },
            6,
        )
    }
}

/// Decode the body of a `Ticket` message.
pub open spec fn dec_ticket_body(b: Seq<u8>) -> Decoded<TicketV> {
    match dec_str(b) {
        Decoded::Found(s, n) => if b.len() < n + 16 {
            Decoded::Truncated
        } else {
            Decoded::Found(
                TicketV {
                    plate: s,
                    road: u16_val(b[n], b[n + 1]),
                    mile1: u16_val(b[n + 2], b[n + 3]),
                    timestamp1: u32_val(b[n + 4], b[n + 5], b[n + 6], b[n + 7]),
                    mile2: u16_val(b[n + 8], b[n + 9]),
                    timestamp2: u32_val(b[n + 10], b[n + 11], b[n + 12], b[n + 13]),
                    speed: u16_val(b[n + 14], b[n + 15]),
                },
                n + 16,
            )
        },
        Decoded::Truncated => Decoded::Truncated,
        Decoded::Malformed => Decoded::Malformed,
    }
}

/// Whether `t` identifies a message a client may send.
pub open spec fn incoming_tag(t: u8) -> bool {
    t == 0x20 || t == 0x40 || t == 0x80 || t == 0x81
}

/// Whether `t` identifies a message the server may send.
pub open spec fn outgoing_tag(t: u8) -> bool {
    t == 0x10 || t == 0x21 || t == 0x41
}

/// Decode a complete incoming message, identifier byte included.
pub open spec fn dec_incoming(b: Seq<u8>) -> Decoded<IncomingV> {
    if b.len() < 1 {
        Decoded::Truncated
    } else if b[0] == 0x20 {
        match dec_plate_body(b.skip(1)) {
            Decoded::Found(p, n) => Decoded::Found(IncomingV::Plate(p), 1 + n),
            Decoded::Truncated => Decoded::Truncated,
            Decoded::Malformed => Decoded::Malformed,
        }
    } else if b[0] == 0x40 {
        match dec_u32(b.skip(1)) {
            Decoded::Found(v, n) => Decoded::Found(IncomingV::WantHeartbeat(v), 1 + n),
            Decoded::Truncated => Decoded::Truncated,
            Decoded::Malformed => Decoded::Malformed,
        }
    } else if b[0] == 0x80 {
        match dec_camera_body(b.skip(1)) {
            Decoded::Found(c, n) => Decoded::Found(IncomingV::IAmCamera(c), 1 + n),
            Decoded::Truncated => Decoded::Truncated,
            Decoded::Malformed => Decoded::Malformed,
        }
    } else if b[0] == 0x81 {
        match dec_roads(b.skip(1)) {
            Decoded::Found(roads, n) => Decoded::Found(IncomingV::IAmDispatcher(roads), 1 + n),
            Decoded::Truncated => Decoded::Truncated,
            Decoded::Malformed => Decoded::Malformed,
        }
    } else {
        Decoded::Malformed
    }
}

/// Decode a complete outgoing message, identifier byte included.
pub open spec fn dec_outgoing(b: Seq<u8>) -> Decoded<OutgoingV> {
    if b.len() < 1 {
        Decoded::Truncated
    } else if b[0] == 0x10 {
        match dec_str(b.skip(1)) {
            Decoded::Found(s, n) => Decoded::Found(OutgoingV::Error(s), 1 + n),
            Decoded::Truncated => Decoded::Truncated,
            Decoded::Malformed => Decoded::Malformed,
        }
    } else if b[0] == 0x21 {
        match dec_ticket_body(b.skip(1)) {
            Decoded::Found(t, n) => Decoded::Found(OutgoingV::Ticket(t), 1 + n),
            Decoded::Truncated => Decoded::Truncated,
            Decoded::Malformed => Decoded::Malformed,
        }
    } else if b[0] == 0x41 {
        Decoded::Found(OutgoingV::Heartbeat, 1)
    } else {
        Decoded::Malformed
    }
}

/// Relies on `String::from_utf8`: bytes below 0x80 are valid UTF-8 and
/// decode to one character per byte, each with the byte's value.
#[verifier::external_body]
fn ascii_to_string(bytes: Vec<u8>) -> (r: String)
    requires
        forall|i: int| 0 <= i < bytes@.len() ==> bytes@[i] < 0x80,
    ensures
        r@ == bytes_chars(bytes@),
{
    match String::from_utf8(bytes) {
        Ok(s) => s,
        Err(_) => String::new(),
    }
}

/// Reads wire encodings from the front of a borrowed byte buffer.
pub struct Deserializer<'de> {
    input: &'de [u8],
    pos: usize,
}

impl<'de> Deserializer<'de> {
    /// The whole input buffer.
    pub closed spec fn spec_input(&self) -> Seq<u8> {
        self.input@
    }

    /// How many bytes have been consumed.
    pub closed spec fn spec_pos(&self) -> int {
        self.pos as int
    }

    /// The cursor never passes the end of the input.
    pub open spec fn wf(&self) -> bool {
        self.spec_pos() <= self.spec_input().len()
    }

    /// The bytes not yet consumed.
    pub open spec fn remaining(&self) -> Seq<u8> {
        self.spec_input().skip(self.spec_pos())
    }

    /// A deserializer positioned at the start of `input`.
    pub fn from_bytes(input: &'de [u8]) -> (r: Self)
        ensures
            r.wf(),
            r.spec_input() == input@,
            r.spec_pos() == 0,
    {
        Deserializer { input, pos: 0 }
    }

    /// How many bytes have been consumed.
    pub fn consumed(&self) -> (r: usize)
        ensures
            r == self.spec_pos(),
    {
        self.pos
    }

    /// Whether the whole input has been consumed.
    pub fn is_empty(&self) -> (r: bool)
        requires
            self.wf(),
        ensures
            r <==> self.remaining().len() == 0,
    {
        self.pos == self.input.len()
    }

    /// The next byte, without consuming it.
    pub fn peek_byte(&self) -> (r: Result<u8, Error>)
        requires
            self.wf(),
        ensures
            self.remaining().len() == 0 ==> r == Result::<u8, Error>::Err(Error::Eof),
            self.remaining().len() > 0 ==> r == Result::<u8, Error>::Ok(self.remaining()[0]),
    {
        if self.pos < self.input.len() {
            Ok(self.input[self.pos])
        } else {
            Err(Error::Eof)
        }
    }

    /// Consume and return the next byte.
    pub fn next_byte(&mut self) -> (r: Result<u8, Error>)
        requires
            old(self).wf(),
        ensures
            final(self).wf(),
            final(self).spec_input() == old(self).spec_input(),
            old(self).remaining().len() == 0 ==> r == Result::<u8, Error>::Err(Error::Eof)
                && final(self).spec_pos() == old(self).spec_pos(),
            old(self).remaining().len() > 0 ==> r == Result::<u8, Error>::Ok(
                old(self).remaining()[0],
            ) && final(self).spec_pos() == old(self).spec_pos() + 1,
    {
        if self.pos < self.input.len() {
            let b = self.input[self.pos];
            self.pos = self.pos + 1;
            Ok(b)
        } else {
            Err(Error::Eof)
        }
    }

    /// Consume a single `u8`.
    pub fn parse_u8(&mut self) -> (r: Result<u8, Error>)
        requires
            old(self).wf(),
        ensures
            final(self).wf(),
            final(self).spec_input() == old(self).spec_input(),
            match dec_u8(old(self).remaining()) {
                Decoded::Found(v, n) => r == Result::<u8, Error>::Ok(v) && final(self).spec_pos()
                    == old(self).spec_pos() + n,
                _ => r == Result::<u8, Error>::Err(Error::Eof) && final(self).spec_pos() == old(self).spec_pos(),
            },
    {
        self.next_byte()
    }

    /// Consume a big-endian `u16`.
    pub fn parse_u16(&mut self) -> (r: Result<u16, Error>)
        requires
            old(self).wf(),
        ensures
            final(self).wf(),
            final(self).spec_input() == old(self).spec_input(),
            match dec_u16(old(self).remaining()) {
                Decoded::Found(v, n) => r == Result::<u16, Error>::Ok(v) && final(self).spec_pos()
                    == old(self).spec_pos() + n,
                _ => r == Result::<u16, Error>::Err(Error::Eof) && final(self).spec_pos() == old(self).spec_pos(),
            },
    {
        if self.input.len() - self.pos < 2 {
            return Err(Error::Eof);
        }
        let b0 = self.input[self.pos];
        let b1 = self.input[self.pos + 1];
        self.pos = self.pos + 2;
        Ok(b0 as u16 * 0x100 + b1 as u16)
    }

    /// Consume a big-endian `u32`.
    pub fn parse_u32(&mut self) -> (r: Result<u32, Error>)
        requires
            old(self).wf(),
        ensures
            final(self).wf(),
            final(self).spec_input() == old(self).spec_input(),
            match dec_u32(old(self).remaining()) {
                Decoded::Found(v, n) => r == Result::<u32, Error>::Ok(v) && final(self).spec_pos()
                    == old(self).spec_pos() + n,
                _ => r == Result::<u32, Error>::Err(Error::Eof) && final(self).spec_pos() == old(self).spec_pos(),
            },
    {
        if self.input.len() - self.pos < 4 {
            return Err(Error::Eof);
        }
        let b0 = self.input[self.pos] as u32;
        let b1 = self.input[self.pos + 1] as u32;
        let b2 = self.input[self.pos + 2] as u32;
        let b3 = self.input[self.pos + 3] as u32;
        self.pos = self.pos + 4;
        Ok(b0 * 0x1000000 + b1 * 0x10000 + b2 * 0x100 + b3)
    }

    /// Consume a length-prefixed ASCII string.
    pub fn parse_ascii(&mut self) -> (r: Result<String, Error>)
        requires
            old(self).wf(),
        ensures
            final(self).wf(),
            final(self).spec_input() == old(self).spec_input(),
            final(self).spec_pos() >= old(self).spec_pos(),
            match dec_str(old(self).remaining()) {
                Decoded::Found(s, n) => r is Ok && r->Ok_0@ == s && is_ascii_chars(s) && s.len()
                    <= 255 && final(self).spec_pos() == old(self).spec_pos() + n,
                Decoded::Truncated => r == Result::<String, Error>::Err(Error::Eof),
                Decoded::Malformed => r == Result::<String, Error>::Err(
                    Error::ExpectedAsciiCharacter,
                ),
            },
    {
        let ghost rem = old(self).remaining();
        let nb = match self.next_byte() {
            Ok(b) => b,
            Err(e) => {
                return Err(e);
            },
        };
        let n = nb as usize;
        if self.input.len() - self.pos < n {
            return Err(Error::Eof);
        }
        let total = self.input.len();
        let mut bytes: Vec<u8> = Vec::new();
        let mut i: usize = 0;
        while i < n
            invariant
                i <= n,
                self.wf(),
                total == self.spec_input().len(),
                self.spec_input() == old(self).spec_input(),
                self.spec_pos() == old(self).spec_pos() + 1,
                self.spec_pos() + n <= self.spec_input().len(),
                rem == old(self).remaining(),
                rem[0] == nb,
                n == nb as usize,
                rem.len() >= 1 + n,
                bytes@ == rem.subrange(1, 1 + i as int),
                forall|j: int| 0 <= j < i ==> bytes@[j] < 0x80,
            decreases n - i,
        {
            let b = self.input[self.pos + i];
            assert(b == rem[1 + i as int]);
            if b >= 0x80 {
                proof {
                    assert((1 + i as int) < 1 + rem[0] as int);
                    assert(rem[1 + i as int] >= 0x80);
                }
                return Err(Error::ExpectedAsciiCharacter);
            }
            bytes.push(b);
            proof {
                assert(bytes@ =~= rem.subrange(1, 1 + (i + 1) as int));
            }
            i = i + 1;
        }
        assert(forall|j: int| 1 <= j < 1 + n ==> rem[j] < 0x80) by {
            assert(forall|j: int| 1 <= j < 1 + n ==> rem[j] == bytes@[j - 1]);
        }
        self.pos = self.pos + n;
        proof {
            assert(bytes@ =~= rem.subrange(1, 1 + n as int));
            lemma_bytes_chars_bytes(bytes@);
        }
        Ok(ascii_to_string(bytes))
    }

    /// Consume the body of a `Plate` message.
    pub fn read_plate_body(&mut self) -> (r: Result<crate::msg::Plate, Error>)
        requires
            old(self).wf(),
        ensures
            final(self).wf(),
            final(self).spec_input() == old(self).spec_input(),
            final(self).spec_pos() >= old(self).spec_pos(),
            match dec_plate_body(old(self).remaining()) {
                Decoded::Found(p, n) => r is Ok && r->Ok_0@ == p && str_ok(p.plate) && final(self).spec_pos() == old(self).spec_pos() + n,
                Decoded::Truncated => r == Result::<crate::msg::Plate, Error>::Err(Error::Eof),
                Decoded::Malformed => r == Result::<crate::msg::Plate, Error>::Err(
                    Error::ExpectedAsciiCharacter,
                ),
            },
    {
        let ghost rem = old(self).remaining();
        let plate = match self.parse_ascii() {
            Ok(s) => s,
            Err(e) => {
                return Err(e);
            },
        };
        proof {
            assert(self.remaining() =~= rem.skip(1 + plate@.len() as int));
        }
        let timestamp = match self.parse_u32() {
            Ok(v) => v,
            Err(e) => {
                return Err(e);
            },
        };
        Ok(crate::msg::Plate { plate, timestamp })
    }

    /// Consume the body of an `IAmCamera` message.
    pub fn read_camera_body(&mut self) -> (r: Result<IAmCamera, Error>)
        requires
            old(self).wf(),
        ensures
            final(self).wf(),
            final(self).spec_input() == old(self).spec_input(),
            final(self).spec_pos() >= old(self).spec_pos(),
            match dec_camera_body(old(self).remaining()) {
                Decoded::Found(c, n) => r == Result::<IAmCamera, Error>::Ok(c) && final(self).spec_pos() == old(self).spec_pos() + n,
                _ => r == Result::<IAmCamera, Error>::Err(Error::Eof),
            },
    {
        let ghost rem = old(self).remaining();
        let road = match self.parse_u16() {
            Ok(v) => v,
            Err(e) => {
                return Err(e);
            },
        };
        proof {
            assert(self.remaining() =~= rem.skip(2));
        }
        let mile = match self.parse_u16() {
            Ok(v) => v,
            Err(e) => {
                return Err(e);
            },
        };
        proof {
            assert(self.remaining() =~= rem.skip(4));
        }
        let limit = match self.parse_u16() {
            Ok(v) => v,
            Err(e) => {
                return Err(e);
            },
        };
        Ok(IAmCamera { road, mile, limit })
    }

    /// Consume the body of an `IAmDispatcher` message.
    pub fn read_dispatcher_body(&mut self) -> (r: Result<crate::msg::IAmDispatcher, Error>)
        requires
            old(self).wf(),
        ensures
            final(self).wf(),
            final(self).spec_input() == old(self).spec_input(),
            final(self).spec_pos() >= old(self).spec_pos(),
            match dec_roads(old(self).remaining()) {
                Decoded::Found(roads, n) => r is Ok && r->Ok_0.roads@ == roads && roads.len()
                    <= 255 && final(self).spec_pos() == old(self).spec_pos() + n,
                _ => r == Result::<crate::msg::IAmDispatcher, Error>::Err(Error::Eof),
            },
    {
        let ghost rem = old(self).remaining();
        let nb = match self.next_byte() {
            Ok(b) => b,
            Err(e) => {
                return Err(e);
            },
        };
        let n = nb as usize;
        if (self.input.len() - self.pos) / 2 < n {
            return Err(Error::Eof);
        }
        let mut roads: Vec<u16> = Vec::new();
        let mut i: usize = 0;
        while i < n
            invariant
                i <= n,
                self.wf(),
                self.spec_input() == old(self).spec_input(),
                self.spec_pos() == old(self).spec_pos() + 1 + 2 * i,
                self.spec_pos() + 2 * (n - i) <= self.spec_input().len(),
                rem == old(self).remaining(),
                rem[0] == nb,
                n == nb as usize,
                rem.len() >= 1 + 2 * n,
                roads@.len() == i,
                forall|j: int| 0 <= j < i ==> roads@[j] == u16_val(rem[1 + 2 * j], rem[2 + 2 * j]),
            decreases n - i,
        {
            let ghost prev = self.remaining();
            let v = match self.parse_u16() {
                Ok(v) => v,
                Err(_) => {
                    proof {
                        assert(prev =~= rem.skip(1 + 2 * i as int));
                        assert(prev.len() >= 2);
                    }
                    return Err(Error::Eof);
                },
            };
            proof {
                assert(prev =~= rem.skip(1 + 2 * i as int));
                assert(prev[0] == rem[1 + 2 * i as int]);
                assert(prev[1] == rem[2 + 2 * i as int]);
            }
            roads.push(v);
            i = i + 1;
        }
        proof {
            assert(roads@ =~= Seq::new(n as nat, |j: int| u16_val(rem[1 + 2 * j], rem[2 + 2 * j])));
        }
        Ok(crate::msg::IAmDispatcher { roads })
    }

    /// Consume the body of a `Ticket` message.
    pub fn read_ticket_body(&mut self) -> (r: Result<crate::msg::Ticket, Error>)
        requires
            old(self).wf(),
        ensures
            final(self).wf(),
            final(self).spec_input() == old(self).spec_input(),
            final(self).spec_pos() >= old(self).spec_pos(),
            match dec_ticket_body(old(self).remaining()) {
                Decoded::Found(t, n) => r is Ok && r->Ok_0@ == t && str_ok(t.plate) && final(self).spec_pos() == old(self).spec_pos() + n,
                Decoded::Truncated => r == Result::<crate::msg::Ticket, Error>::Err(Error::Eof),
                Decoded::Malformed => r == Result::<crate::msg::Ticket, Error>::Err(
                    Error::ExpectedAsciiCharacter,
                ),
            },
    {
        let ghost rem = old(self).remaining();
        let plate = match self.parse_ascii() {
            Ok(s) => s,
            Err(e) => {
                return Err(e);
            },
        };
        let ghost n = 1 + plate@.len() as int;
        proof {
            assert(self.remaining() =~= rem.skip(n));
        }
        let road = match self.parse_u16() {
            Ok(v) => v,
            Err(e) => {
                return Err(e);
            },
        };
        proof {
            assert(self.remaining() =~= rem.skip(n + 2));
        }
        let mile1 = match self.parse_u16() {
            Ok(v) => v,
            Err(e) => {
                return Err(e);
            },
        };
        proof {
            assert(self.remaining() =~= rem.skip(n + 4));
        }
        let timestamp1 = match self.parse_u32() {
            Ok(v) => v,
            Err(e) => {
                return Err(e);
            },
        };
        proof {
            assert(self.remaining() =~= rem.skip(n + 8));
        }
        let mile2 = match self.parse_u16() {
            Ok(v) => v,
            Err(e) => {
                return Err(e);
            },
        };
        proof {
            assert(self.remaining() =~= rem.skip(n + 10));
        }
        let timestamp2 = match self.parse_u32() {
            Ok(v) => v,
            Err(e) => {
                return Err(e);
            },
        };
        proof {
            assert(self.remaining() =~= rem.skip(n + 14));
        }
        let speed = match self.parse_u16() {
            Ok(v) => v,
            Err(e) => {
                return Err(e);
            },
        };
        Ok(crate::msg::Ticket { plate, road, mile1, timestamp1, mile2, timestamp2, speed })
    }

    /// Consume one complete incoming message, identifier byte included.
    pub fn read_incoming(&mut self) -> (r: Result<crate::msg::IncomingMessage, Error>)
        requires
            old(self).wf(),
        ensures
            final(self).wf(),
            final(self).spec_input() == old(self).spec_input(),
            final(self).spec_pos() >= old(self).spec_pos(),
            match dec_incoming(old(self).remaining()) {
                Decoded::Found(v, n) => r is Ok && r->Ok_0@ == v && incoming_ok(v) && final(self).spec_pos() == old(self).spec_pos() + n,
                Decoded::Truncated => r == Result::<crate::msg::IncomingMessage, Error>::Err(
                    Error::Eof,
                ),
                Decoded::Malformed => r == Result::<crate::msg::IncomingMessage, Error>::Err(
                    if !incoming_tag(old(self).remaining()[0]) {
                        Error::UnrecognizedMessage
                    } else {
                        Error::ExpectedAsciiCharacter
                    },
                ),
            },
    {
        let ghost rem = old(self).remaining();
        let tag = match self.next_byte() {
            Ok(b) => b,
            Err(e) => {
                return Err(e);
            },
        };
        proof {
            assert(self.remaining() =~= rem.skip(1));
        }
        if tag == 0x20 {
            match self.read_plate_body() {
                Ok(p) => Ok(crate::msg::IncomingMessage::Plate(p)),
                Err(e) => Err(e),
            }
        } else if tag == 0x40 {
            match self.parse_u32() {
                Ok(v) => Ok(crate::msg::IncomingMessage::WantHeartbeat(
                    crate::msg::WantHeartbeat { interval: crate::msg::Decisecond(v) },
                )),
                Err(e) => Err(e),
            }
        } else if tag == 0x80 {
            match self.read_camera_body() {
                Ok(c) => Ok(crate::msg::IncomingMessage::IAmCamera(c)),
                Err(e) => Err(e),
            }
        } else if tag == 0x81 {
            match self.read_dispatcher_body() {
                Ok(d) => Ok(crate::msg::IncomingMessage::IAmDispatcher(d)),
                Err(e) => Err(e),
            }
        } else {
            Err(Error::UnrecognizedMessage)
        }
    }

    /// Consume one complete outgoing message, identifier byte included.
    pub fn read_outgoing(&mut self) -> (r: Result<crate::msg::OutgoingMessage, Error>)
        requires
            old(self).wf(),
        ensures
            final(self).wf(),
            final(self).spec_input() == old(self).spec_input(),
            final(self).spec_pos() >= old(self).spec_pos(),
            match dec_outgoing(old(self).remaining()) {
                Decoded::Found(v, n) => r is Ok && r->Ok_0@ == v && outgoing_ok(v) && final(self).spec_pos() == old(self).spec_pos() + n,
                Decoded::Truncated => r == Result::<crate::msg::OutgoingMessage, Error>::Err(
                    Error::Eof,
                ),
                Decoded::Malformed => r == Result::<crate::msg::OutgoingMessage, Error>::Err(
                    if !outgoing_tag(old(self).remaining()[0]) {
                        Error::UnrecognizedMessage
                    } else {
                        Error::ExpectedAsciiCharacter
                    },
                ),
            },
    {
        let ghost rem = old(self).remaining();
        let tag = match self.next_byte() {
            Ok(b) => b,
            Err(e) => {
                return Err(e);
            },
        };
        proof {
            assert(self.remaining() =~= rem.skip(1));
        }
        if tag == 0x10 {
            match self.parse_ascii() {
                Ok(s) => Ok(crate::msg::OutgoingMessage::Error(crate::msg::Error(s))),
                Err(e) => Err(e),
            }
        } else if tag == 0x21 {
            match self.read_ticket_body() {
                Ok(t) => Ok(crate::msg::OutgoingMessage::Ticket(t)),
                Err(e) => Err(e),
            }
        } else if tag == 0x41 {
            Ok(crate::msg::OutgoingMessage::Heartbeat)
        } else {
            Err(Error::UnrecognizedMessage)
        }
    }
}

/// Decode one complete incoming message from `input`, requiring that it
/// occupy the whole buffer.
pub fn from_bytes(input: &[u8]) -> (r: Result<crate::msg::IncomingMessage, Error>)
    ensures
        match dec_incoming(input@) {
            Decoded::Found(v, n) => if n == input@.len() {
                r is Ok && r->Ok_0@ == v && incoming_ok(v)
            } else {
                r == Result::<crate::msg::IncomingMessage, Error>::Err(Error::TrailingBytes)
            },
            Decoded::Truncated => r == Result::<crate::msg::IncomingMessage, Error>::Err(
                Error::Eof,
            ),
            Decoded::Malformed => r == Result::<crate::msg::IncomingMessage, Error>::Err(
                if !incoming_tag(input@[0]) {
                    Error::UnrecognizedMessage
                } else {
                    Error::ExpectedAsciiCharacter
                },
            ),
        },
{
    let mut de = Deserializer::from_bytes(input);
    proof {
        assert(de.remaining() =~= input@);
    }
    let m = match de.read_incoming() {
        Ok(m) => m,
        Err(e) => {
            return Err(e);
        },
    };
    if de.is_empty() {
        Ok(m)
    } else {
        Err(Error::TrailingBytes)
    }
}

// ---------------------------------------------------------------------------
// Serializer.
// ---------------------------------------------------------------------------

/// Appends wire encodings to an output buffer.
pub struct Serializer {
    output: Vec<u8>,
}

impl View for Serializer {
    type V = Seq<u8>;

    closed spec fn view(&self) -> Seq<u8> {
        self.output@
    }
}

impl Serializer {
    /// A serializer with an empty output buffer.
    pub fn new() -> (r: Serializer)
        ensures
            r@ == Seq::<u8>::empty(),
    {
        Serializer { output: Vec::new() }
    }

    /// The bytes written so far.
    pub fn into_bytes(self) -> (r: Vec<u8>)
        ensures
            r@ == self@,
    {
        self.output
    }

    /// Append one byte.
    pub fn serialize_u8(&mut self, v: u8)
        ensures
            final(self)@ == old(self)@.push(v),
    {
        self.output.push(v);
    }

    /// Append the two big-endian bytes of `v`.
    pub fn serialize_u16(&mut self, v: u16)
        ensures
            final(self)@ == old(self)@ + u16_be(v),
    {
        self.output.push((v / 0x100) as u8);
        self.output.push((v % 0x100) as u8);
        assert(self@ =~= old(self)@ + u16_be(v));
    }

    /// Append the four big-endian bytes of `v`.
    pub fn serialize_u32(&mut self, v: u32)
        ensures
            final(self)@ == old(self)@ + u32_be(v),
    {
        self.output.push((v / 0x1000000) as u8);
        self.output.push(((v / 0x10000) % 0x100) as u8);
        self.output.push(((v / 0x100) % 0x100) as u8);
        self.output.push((v % 0x100) as u8);
        assert(self@ =~= old(self)@ + u32_be(v));
    }

    /// Append a length-prefixed ASCII string, rejecting one that is too
    /// long or not ASCII.
    pub fn serialize_str(&mut self, v: &str) -> (r: Result<(), Error>)
        ensures
            r is Ok <==> str_ok(v@),
            r is Ok ==> final(self)@ == old(self)@ + str_enc(v@),
            r is Err ==> final(self)@ == old(self)@,
            v.spec_bytes().len() > 255 ==> r == Result::<(), Error>::Err(Error::StringTooLong),
            v.spec_bytes().len() <= 255 && !is_ascii_chars(v@) ==> r == Result::<(), Error>::Err(
                Error::ExpectedAsciiCharacter,
            ),
    {
        let bytes = v.as_bytes();
        if bytes.len() > 255 {
            proof {
                vstd::string::is_ascii_spec_bytes(v);
            }
            return Err(Error::StringTooLong);
        }
        if !v.is_ascii() {
            return Err(Error::ExpectedAsciiCharacter);
        }
        proof {
            assert(bytes@ =~= str_bytes(v@));
        }
        self.output.push(bytes.len() as u8);
        let mut i: usize = 0;
        while i < bytes.len()
            invariant
                i <= bytes.len(),
                bytes@ == str_bytes(v@),
                bytes@.len() <= 255,
                self@ == old(self)@ + seq![v@.len() as u8] + str_bytes(v@).take(i as int),
            decreases bytes.len() - i,
        {
            self.output.push(bytes[i]);
            proof {
                assert(self@ =~= old(self)@ + seq![v@.len() as u8] + str_bytes(v@).take(
                    i as int + 1,
                ));
            }
            i = i + 1;
        }
        proof {
            assert(str_bytes(v@).take(v@.len() as int) =~= str_bytes(v@));
            assert(self@ =~= old(self)@ + str_enc(v@));
        }
        Ok(())
    }

    /// Append a count-prefixed array of big-endian `u16` values,
    /// rejecting one of more than 255 elements.
    pub fn serialize_roads(&mut self, roads: &Vec<u16>) -> (r: Result<(), Error>)
        ensures
            r is Ok <==> roads_ok(roads@),
            r is Ok ==> final(self)@ == old(self)@ + seq![roads@.len() as u8] + roads_bytes(
                roads@,
            ),
            r is Err ==> final(self)@ == old(self)@ && r == Result::<(), Error>::Err(
                Error::ArrayTooLong,
            ),
    {
        if roads.len() > 255 {
            return Err(Error::ArrayTooLong);
        }
        self.serialize_u8(roads.len() as u8);
        let mut i: usize = 0;
        while i < roads.len()
            invariant
                i <= roads@.len() <= 255,
                self@ == old(self)@ + seq![roads@.len() as u8] + roads_bytes(roads@.take(i as int)),
            decreases roads@.len() - i,
        {
            self.serialize_u16(roads[i]);
            proof {
                assert(roads@.take(i + 1 as int) =~= roads@.take(i as int).push(roads@[i as int]));
                lemma_roads_bytes_push(roads@.take(i as int), roads@[i as int]);
                assert(self@ =~= old(self)@ + seq![roads@.len() as u8] + roads_bytes(
                    roads@.take(i + 1 as int),
                ));
            }
            i = i + 1;
        }
        proof {
            assert(roads@.take(roads@.len() as int) =~= roads@);
        }
        Ok(())
    }

    /// Append a complete incoming message, identifier byte included.
    pub fn serialize_incoming(&mut self, m: &crate::msg::IncomingMessage) -> (r: Result<
        (),
        Error,
    >)
        ensures
            r is Ok <==> incoming_ok(m@),
            r is Ok ==> final(self)@ == old(self)@ + enc_incoming(m@),
            r is Err ==> final(self)@ == old(self)@,
            m@ matches crate::msg::IncomingV::Plate(p) && vstd::utf8::encode_utf8(p.plate).len()
                > 255 ==> r == Result::<(), Error>::Err(Error::StringTooLong),
            m@ matches crate::msg::IncomingV::Plate(p) && vstd::utf8::encode_utf8(p.plate).len()
                <= 255 && !is_ascii_chars(p.plate) ==> r == Result::<(), Error>::Err(
                Error::ExpectedAsciiCharacter,
            ),
            m@ matches crate::msg::IncomingV::IAmDispatcher(roads) && roads.len() > 255 ==> r
                == Result::<(), Error>::Err(Error::ArrayTooLong),
    {
        match m {
            crate::msg::IncomingMessage::IAmCamera(c) => {
                self.serialize_u8(0x80);
                self.serialize_u16(c.road);
                self.serialize_u16(c.mile);
                self.serialize_u16(c.limit);
                proof {
                    assert(self@ =~= old(self)@ + enc_incoming(m@));
                }
                Ok(())
            },
            crate::msg::IncomingMessage::IAmDispatcher(d) => {
                if d.roads.len() > 255 {
                    return Err(Error::ArrayTooLong);
                }
                self.serialize_u8(0x81);
                match self.serialize_roads(&d.roads) {
                    Ok(()) => {},
                    Err(e) => {
                        proof {
                            assert(false);
                        }
                        return Err(e);
                    },
                }
                proof {
                    assert(self@ =~= old(self)@ + enc_incoming(m@));
                }
                Ok(())
            },
            crate::msg::IncomingMessage::WantHeartbeat(w) => {
                self.serialize_u8(0x40);
                self.serialize_u32(w.interval.0);
                proof {
                    assert(self@ =~= old(self)@ + enc_incoming(m@));
                }
                Ok(())
            },
            crate::msg::IncomingMessage::Plate(p) => {
                let s = p.plate.as_str();
                if s.as_bytes().len() > 255 {
                    proof {
                        vstd::string::is_ascii_spec_bytes(s);
                    }
                    return Err(Error::StringTooLong);
                }
                if !s.is_ascii() {
                    return Err(Error::ExpectedAsciiCharacter);
                }
                self.serialize_u8(0x20);
                match self.serialize_str(s) {
                    Ok(()) => {},
                    Err(e) => {
                        proof {
                            vstd::string::is_ascii_spec_bytes(s);
                            assert(false);
                        }
                        return Err(e);
                    },
                }
                self.serialize_u32(p.timestamp);
                proof {
                    assert(self@ =~= old(self)@ + enc_incoming(m@));
                }
                Ok(())
            },
        }
    }

    /// Append a complete outgoing message, identifier byte included.
    pub fn serialize_outgoing(&mut self, m: &crate::msg::OutgoingMessage) -> (r: Result<
        (),
        Error,
    >)
        ensures
            r is Ok <==> outgoing_ok(m@),
            r is Ok ==> final(self)@ == old(self)@ + enc_outgoing(m@),
            r is Err ==> final(self)@ == old(self)@,
            m@ matches crate::msg::OutgoingV::Error(s) && vstd::utf8::encode_utf8(s).len() > 255
                ==> r == Result::<(), Error>::Err(Error::StringTooLong),
            m@ matches crate::msg::OutgoingV::Error(s) && vstd::utf8::encode_utf8(s).len() <= 255
                && !is_ascii_chars(s) ==> r == Result::<(), Error>::Err(
                Error::ExpectedAsciiCharacter,
            ),
            m@ matches crate::msg::OutgoingV::Ticket(t) && vstd::utf8::encode_utf8(t.plate).len()
                > 255 ==> r == Result::<(), Error>::Err(Error::StringTooLong),
            m@ matches crate::msg::OutgoingV::Ticket(t) && vstd::utf8::encode_utf8(t.plate).len()
                <= 255 && !is_ascii_chars(t.plate) ==> r == Result::<(), Error>::Err(
                Error::ExpectedAsciiCharacter,
            ),
    {
        match m {
            crate::msg::OutgoingMessage::Heartbeat => {
                self.serialize_u8(0x41);
                proof {
                    assert(self@ =~= old(self)@ + enc_outgoing(m@));
                }
                Ok(())
            },
            crate::msg::OutgoingMessage::Error(e) => {
                let s = e.0.as_str();
                if s.as_bytes().len() > 255 {
                    proof {
                        vstd::string::is_ascii_spec_bytes(s);
                    }
                    return Err(Error::StringTooLong);
                }
                if !s.is_ascii() {
                    return Err(Error::ExpectedAsciiCharacter);
                }
                self.serialize_u8(0x10);
                match self.serialize_str(s) {
                    Ok(()) => {},
                    Err(err) => {
                        proof {
                            vstd::string::is_ascii_spec_bytes(s);
                            assert(false);
                        }
                        return Err(err);
                    },
                }
                proof {
                    assert(self@ =~= old(self)@ + enc_outgoing(m@));
                }
                Ok(())
            },
            crate::msg::OutgoingMessage::Ticket(t) => {
                let s = t.plate.as_str();
                if s.as_bytes().len() > 255 {
                    proof {
                        vstd::string::is_ascii_spec_bytes(s);
                    }
                    return Err(Error::StringTooLong);
                }
                if !s.is_ascii() {
                    return Err(Error::ExpectedAsciiCharacter);
                }
                self.serialize_u8(0x21);
                match self.serialize_str(s) {
                    Ok(()) => {},
                    Err(err) => {
                        proof {
                            vstd::string::is_ascii_spec_bytes(s);
                            assert(false);
                        }
                        return Err(err);
                    },
                }
                self.serialize_u16(t.road);
                self.serialize_u16(t.mile1);
                self.serialize_u32(t.timestamp1);
                self.serialize_u16(t.mile2);
                self.serialize_u32(t.timestamp2);
                self.serialize_u16(t.speed);
                proof {
                    assert(self@ =~= old(self)@ + enc_outgoing(m@));
                }
                Ok(())
            },
        }
    }
}

/// Encode one complete incoming message to a fresh buffer.
pub fn encode_incoming(m: &crate::msg::IncomingMessage) -> (r: Result<Vec<u8>, Error>)
    ensures
        r is Ok <==> incoming_ok(m@),
        r is Ok ==> r->Ok_0@ == enc_incoming(m@),
{
    let mut ser = Serializer::new();
    match ser.serialize_incoming(m) {
        Ok(()) => {
            proof {
                assert(Seq::<u8>::empty() + enc_incoming(m@) =~= enc_incoming(m@));
            }
            Ok(ser.into_bytes())
        },
        Err(e) => Err(e),
    }
}

// ---------------------------------------------------------------------------
// Round-trip laws.
// ---------------------------------------------------------------------------

/// Decoding the encoding of any encodable incoming message, whatever
/// follows it, gives back the message and consumes exactly its bytes.
pub proof fn lemma_dec_enc_incoming(m: IncomingV, rest: Seq<u8>)
    requires
        incoming_ok(m),
    ensures
        dec_incoming(enc_incoming(m) + rest) == Decoded::<IncomingV>::Found(
            m,
            enc_incoming(m).len() as int,
        ),
{
    let b = enc_incoming(m) + rest;
    match m {
        IncomingV::IAmCamera(c) => {
            assert(b[0] == 0x80);
            let b1 = b.skip(1);
            assert(b1 =~= u16_be(c.road) + u16_be(c.mile) + u16_be(c.limit) + rest);
            lemma_u16_val_be(c.road);
            lemma_u16_val_be(c.mile);
            lemma_u16_val_be(c.limit);
            assert(b1[0] == u16_be(c.road)[0] && b1[1] == u16_be(c.road)[1]);
            assert(b1[2] == u16_be(c.mile)[0] && b1[3] == u16_be(c.mile)[1]);
            assert(b1[4] == u16_be(c.limit)[0] && b1[5] == u16_be(c.limit)[1]);
            assert(dec_camera_body(b1) == Decoded::<IAmCamera>::Found(c, 6));
        },
        IncomingV::IAmDispatcher(roads) => {
            assert(b[0] == 0x81);
            let b1 = b.skip(1);
            lemma_roads_bytes_len(roads);
            assert(b1 =~= seq![roads.len() as u8] + roads_bytes(roads) + rest);
            assert(b1[0] == roads.len() as u8);
            assert(b1.len() >= 1 + 2 * roads.len());
            let v = Seq::new(roads.len(), |i: int| u16_val(b1[1 + 2 * i], b1[2 + 2 * i]));
            assert forall|i: int| 0 <= i < roads.len() implies v[i] == roads[i] by {
                lemma_roads_bytes_index(roads, i);
                assert(b1[1 + 2 * i] == roads_bytes(roads)[2 * i]);
                assert(b1[2 + 2 * i] == roads_bytes(roads)[2 * i + 1]);
                lemma_u16_val_be(roads[i]);
            }
            assert(v =~= roads);
            assert(dec_roads(b1) == Decoded::<Seq<u16>>::Found(roads, 1 + 2 * roads.len() as int));
        },
        IncomingV::WantHeartbeat(interval) => {
            assert(b[0] == 0x40);
            let b1 = b.skip(1);
            assert(b1 =~= u32_be(interval) + rest);
            lemma_u32_val_be(interval);
            assert(dec_u32(b1) == Decoded::<u32>::Found(interval, 4));
        },
        IncomingV::Plate(p) => {
            assert(b[0] == 0x20);
            let b1 = b.skip(1);
            let n = 1 + p.plate.len() as int;
            assert(b1 =~= str_enc(p.plate) + (u32_be(p.timestamp) + rest));
            lemma_dec_str_enc(p.plate, u32_be(p.timestamp) + rest);
            assert(dec_str(b1) == Decoded::<Seq<char>>::Found(p.plate, n));
            assert(b1.len() >= n + 4);
            lemma_u32_val_be(p.timestamp);
            assert(b1[n] == u32_be(p.timestamp)[0]);
            assert(b1[n + 1] == u32_be(p.timestamp)[1]);
            assert(b1[n + 2] == u32_be(p.timestamp)[2]);
            assert(b1[n + 3] == u32_be(p.timestamp)[3]);
            assert(dec_plate_body(b1) == Decoded::<PlateV>::Found(p, n + 4));
        },
    }
}

/// A decoded incoming message is encodable and re-encodes to exactly
/// the bytes it was decoded from.
pub proof fn lemma_enc_dec_incoming(b: Seq<u8>, m: IncomingV, n: int)
    requires
        dec_incoming(b) == Decoded::<IncomingV>::Found(m, n),
    ensures
        incoming_ok(m),
        1 <= n <= b.len(),
        enc_incoming(m) == b.take(n),
{
    let b1 = b.skip(1);
    match m {
        IncomingV::IAmCamera(c) => {
            lemma_u16_be_val(b1[0], b1[1]);
            lemma_u16_be_val(b1[2], b1[3]);
            lemma_u16_be_val(b1[4], b1[5]);
            assert(enc_incoming(m) =~= b.take(n));
        },
        IncomingV::IAmDispatcher(roads) => {
            let k = b1[0] as int;
            assert(roads == Seq::new(k as nat, |i: int| u16_val(b1[1 + 2 * i], b1[2 + 2 * i])));
            assert(roads.len() == k);
            lemma_roads_bytes_len(roads);
            assert forall|j: int| 0 <= j < 2 * k implies roads_bytes(roads)[j] == b1[1 + j] by {
                let i = j / 2;
                lemma_roads_bytes_index(roads, i);
                lemma_u16_be_val(b1[1 + 2 * i], b1[2 + 2 * i]);
                assert(u16_be(roads[i]) == seq![b1[1 + 2 * i], b1[2 + 2 * i]]);
                if j % 2 == 0 {
                    assert(j == 2 * i);
                    assert(roads_bytes(roads)[2 * i] == (roads[i] / 0x100) as u8);
                } else {
                    assert(j == 2 * i + 1);
                    assert(roads_bytes(roads)[2 * i + 1] == (roads[i] % 0x100) as u8);
                }
            }
            assert(n == 1 + (1 + 2 * k));
            assert(enc_incoming(m) =~= b.take(n));
        },
        IncomingV::WantHeartbeat(interval) => {
            lemma_u32_be_val(b1[0], b1[1], b1[2], b1[3]);
            assert(enc_incoming(m) =~= b.take(n));
        },
        IncomingV::Plate(p) => {
            let dec = dec_str(b1);
            let k = 1 + p.plate.len() as int;
            assert(dec == Decoded::<Seq<char>>::Found(p.plate, k));
            lemma_enc_str_dec(b1, p.plate, k);
            assert(str_enc(p.plate) == b1.take(k));
            lemma_u32_be_val(b1[k], b1[k + 1], b1[k + 2], b1[k + 3]);
            assert(u32_be(p.timestamp) == seq![b1[k], b1[k + 1], b1[k + 2], b1[k + 3]]);
            assert forall|j: int| 0 <= j < k implies str_enc(p.plate)[j] == b1.take(k)[j] by {}
            assert(enc_incoming(m) =~= b.take(n));
        },
    }
}

/// Decoding the encoding of any encodable outgoing message, whatever
/// follows it, gives back the message and consumes exactly its bytes.
pub proof fn lemma_dec_enc_outgoing(m: OutgoingV, rest: Seq<u8>)
    requires
        outgoing_ok(m),
    ensures
        dec_outgoing(enc_outgoing(m) + rest) == Decoded::<OutgoingV>::Found(
            m,
            enc_outgoing(m).len() as int,
        ),
{
    let b = enc_outgoing(m) + rest;
    match m {
        OutgoingV::Heartbeat => {
            assert(b[0] == 0x41);
        },
        OutgoingV::Error(s) => {
            assert(b[0] == 0x10);
            let b1 = b.skip(1);
            assert(b1 =~= str_enc(s) + rest);
            lemma_dec_str_enc(s, rest);
            assert(dec_str(b1) == Decoded::<Seq<char>>::Found(s, 1 + s.len() as int));
        },
        OutgoingV::Ticket(t) => {
            assert(b[0] == 0x21);
            let b1 = b.skip(1);
            let n = 1 + t.plate.len() as int;
            let tail = u16_be(t.road) + u16_be(t.mile1) + u32_be(t.timestamp1) + u16_be(t.mile2)
                + u32_be(t.timestamp2) + u16_be(t.speed) + rest;
            assert(b1 =~= str_enc(t.plate) + tail);
            lemma_dec_str_enc(t.plate, tail);
            assert(dec_str(b1) == Decoded::<Seq<char>>::Found(t.plate, n));
            assert(b1.len() >= n + 16);
            lemma_u16_val_be(t.road);
            lemma_u16_val_be(t.mile1);
            lemma_u32_val_be(t.timestamp1);
            lemma_u16_val_be(t.mile2);
            lemma_u32_val_be(t.timestamp2);
            lemma_u16_val_be(t.speed);
            assert(b1[n] == u16_be(t.road)[0] && b1[n + 1] == u16_be(t.road)[1]);
            assert(b1[n + 2] == u16_be(t.mile1)[0] && b1[n + 3] == u16_be(t.mile1)[1]);
            assert(b1[n + 4] == u32_be(t.timestamp1)[0] && b1[n + 5] == u32_be(t.timestamp1)[1]
                && b1[n + 6] == u32_be(t.timestamp1)[2] && b1[n + 7] == u32_be(t.timestamp1)[3]);
            assert(b1[n + 8] == u16_be(t.mile2)[0] && b1[n + 9] == u16_be(t.mile2)[1]);
            assert(b1[n + 10] == u32_be(t.timestamp2)[0] && b1[n + 11] == u32_be(t.timestamp2)[1]
                && b1[n + 12] == u32_be(t.timestamp2)[2] && b1[n + 13] == u32_be(t.timestamp2)[3]);
            assert(b1[n + 14] == u16_be(t.speed)[0] && b1[n + 15] == u16_be(t.speed)[1]);
            assert(dec_ticket_body(b1) == Decoded::<TicketV>::Found(t, n + 16));
        },
    }
}

/// A decoded outgoing message is encodable and re-encodes to exactly
/// the bytes it was decoded from.
pub proof fn lemma_enc_dec_outgoing(b: Seq<u8>, m: OutgoingV, n: int)
    requires
        dec_outgoing(b) == Decoded::<OutgoingV>::Found(m, n),
    ensures
        outgoing_ok(m),
        1 <= n <= b.len(),
        enc_outgoing(m) == b.take(n),
{
    let b1 = b.skip(1);
    match m {
        OutgoingV::Heartbeat => {
            assert(enc_outgoing(m) =~= b.take(n));
        },
        OutgoingV::Error(s) => {
            let k = 1 + s.len() as int;
            lemma_enc_str_dec(b1, s, k);
            assert(str_enc(s) == b1.take(k));
            assert(enc_outgoing(m) =~= b.take(n));
        },
        OutgoingV::Ticket(t) => {
            let k = 1 + t.plate.len() as int;
            lemma_enc_str_dec(b1, t.plate, k);
            assert(str_enc(t.plate) == b1.take(k));
            lemma_u16_be_val(b1[k], b1[k + 1]);
            lemma_u16_be_val(b1[k + 2], b1[k + 3]);
            lemma_u32_be_val(b1[k + 4], b1[k + 5], b1[k + 6], b1[k + 7]);
            lemma_u16_be_val(b1[k + 8], b1[k + 9]);
            lemma_u32_be_val(b1[k + 10], b1[k + 11], b1[k + 12], b1[k + 13]);
            lemma_u16_be_val(b1[k + 14], b1[k + 15]);
            assert(enc_outgoing(m) =~= b.take(n));
        },
    }
}

/// A string with any byte at or above 0x80 in its body never decodes.
pub proof fn lemma_dec_str_high_byte(b: Seq<u8>)
    requires
        b.len() >= 1,
        b.len() >= 1 + b[0] as int,
        exists|i: int| 1 <= i < 1 + b[0] as int && b[i] >= 0x80,
    ensures
        dec_str(b) is Malformed,
{
}

/// A character sequence longer than 255 has no wire encoding.
pub proof fn lemma_str_too_long(s: Seq<char>)
    requires
        s.len() > 255,
    ensures
        !str_ok(s),
{
}

/// A road array longer than 255 has no wire encoding.
pub proof fn lemma_roads_too_long(roads: Seq<u16>)
    requires
        roads.len() > 255,
    ensures
        !roads_ok(roads),
{
}

/// Encode one complete outgoing message to a fresh buffer.
pub fn encode_outgoing(m: &crate::msg::OutgoingMessage) -> (r: Result<Vec<u8>, Error>)
    ensures
        r is Ok <==> outgoing_ok(m@),
        r is Ok ==> r->Ok_0@ == enc_outgoing(m@),
{
    let mut ser = Serializer::new();
    match ser.serialize_outgoing(m) {
        Ok(()) => {
            proof {
                assert(Seq::<u8>::empty() + enc_outgoing(m@) =~= enc_outgoing(m@));
            }
            Ok(ser.into_bytes())
        },
        Err(e) => Err(e),
    }
}

} // verus!
