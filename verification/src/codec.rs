//! Handshake message codec: encodes a handshake message into a
//! length-prefixed byte frame and decodes such a frame back.
//!
//! A frame is a 4-byte big-endian unsigned length followed by a payload of
//! exactly that many bytes. The payload is the message's JSON text: an
//! object with one key naming the variant. The encoder escapes string
//! content the way a standard JSON encoder does: printable ASCII stands
//! for itself, quote and backslash and the common control characters get
//! their two-byte escapes, and every other character is written as a `\u`
//! escape (a surrogate pair for characters beyond the basic plane). The
//! decoder accepts everything the encoder emits and, inside strings, also
//! the raw form a peer's JSON encoder may use instead: multi-byte UTF-8
//! for characters outside ASCII, and a raw DEL byte. The object shape
//! itself (key order, no insignificant whitespace) is the compact form
//! standard JSON encoders produce, and is fixed.

use vstd::prelude::*;

verus! {

/// Maximum payload length the framing layer accepts (10 MiB).
pub const MAX_MESSAGE_SIZE: usize = 10 * 1024 * 1024;

/// Handshake messages exchanged before raw relaying begins.
#[derive(Debug, Clone)]
pub enum Message {
    /// Sent by a connecting peer: the shared session identifier, the name of
    /// the intended remote peer, and the sender's declared role. Only the
    /// identifier affects pairing; the other two fields are diagnostic.
    RelayRequest { uuid: String, peer_id: String, role: String },
    /// Sent by the relay: whether pairing can proceed, with an optional
    /// diagnostic text on failure.
    RelayResponse { success: bool, message: Option<String> },
}

/// The mathematical value of a handshake message: its strings as character
/// sequences.
pub enum MessageView {
    RelayRequest { uuid: Seq<char>, peer_id: Seq<char>, role: Seq<char> },
    RelayResponse { success: bool, message: Option<Seq<char>> },
}

impl View for Message {
    type V = MessageView;

    open spec fn view(&self) -> MessageView {
        match self {
            Message::RelayRequest { uuid, peer_id, role } => MessageView::RelayRequest {
                uuid: uuid@,
                peer_id: peer_id@,
                role: role@,
            },
            Message::RelayResponse { success, message } => MessageView::RelayResponse {
                success: *success,
                message: match message {
                    Some(s) => Some(s@),
                    None => None,
                },
            },
        }
    }
}

/// Why a frame failed to decode.
#[derive(PartialEq, Eq, Structural, Clone, Copy, Debug)]
pub enum FormatError {
    /// Fewer than the 4 header bytes are present.
    TooShort,
    /// The declared payload length exceeds the maximum frame size.
    TooLarge,
    /// Fewer payload bytes are available than the header declares.
    Incomplete,
    /// The payload does not parse as a handshake message.
    Malformed,
}

// ---------------------------------------------------------------------------
// Specification: the encoding, byte for byte.
// ---------------------------------------------------------------------------
/// Lowercase hex digit for a value below 16.
pub open spec fn hex_digit(d: u32) -> u8 {
    if d < 10 {
        (48 + d) as u8
    } else {
        (87 + d) as u8
    }
}

/// Four lowercase hex digits of a value below 0x10000.
pub open spec fn hex4(v: u32) -> Seq<u8> {
    seq![
        hex_digit((v / 0x1000) as u32 % 0x10),
        hex_digit((v / 0x100) as u32 % 0x10),
        hex_digit((v / 0x10) as u32 % 0x10),
        hex_digit(v % 0x10),
    ]
}

/// The JSON text of one string character.
pub open spec fn encode_char(c: char) -> Seq<u8> {
    let v = c as u32;
    if v == 34 {
        seq![92u8, 34]
    } else if v == 92 {
        seq![92u8, 92]
    } else if 32 <= v && v < 127 {
        seq![v as u8]
    } else if v == 8 {
        seq![92u8, 98]
    } else if v == 9 {
        seq![92u8, 116]
    } else if v == 10 {
        seq![92u8, 110]
    } else if v == 12 {
        seq![92u8, 102]
    } else if v == 13 {
        seq![92u8, 114]
    } else if v < 0x10000 {
        seq![92u8, 117] + hex4(v)
    } else {
        seq![92u8, 117] + hex4((0xd800 + (v - 0x10000) / 0x400) as u32) + seq![92u8, 117] + hex4(
            (0xdc00 + (v - 0x10000) % 0x400) as u32,
        )
    }
}

/// The JSON text of a string's characters, without the surrounding quotes.
pub open spec fn encode_chars(s: Seq<char>) -> Seq<u8>
    decreases s.len(),
{
    if s.len() == 0 {
        Seq::empty()
    } else {
        encode_char(s[0]) + encode_chars(s.drop_first())
    }
}

/// A quoted JSON string.
pub open spec fn encode_string(s: Seq<char>) -> Seq<u8> {
    seq![34u8] + encode_chars(s) + seq![34u8]
}

// The fixed byte runs of the two message forms.
/// `{"RelayRequest":{"uuid":`
pub open spec fn lit_req_open() -> Seq<u8> {
    seq![123u8, 34, 82, 101, 108, 97, 121, 82, 101, 113, 117, 101, 115, 116, 34, 58, 123, 34, 117, 117, 105, 100, 34, 58]
}

/// `,"peer_id":`
pub open spec fn lit_peer() -> Seq<u8> {
    seq![44u8, 34, 112, 101, 101, 114, 95, 105, 100, 34, 58]
}

/// `,"role":`
pub open spec fn lit_role() -> Seq<u8> {
    seq![44u8, 34, 114, 111, 108, 101, 34, 58]
}

/// `}}`
pub open spec fn lit_close() -> Seq<u8> {
    seq![125u8, 125]
}

/// `{"RelayResponse":{"success":`
pub open spec fn lit_resp_open() -> Seq<u8> {
    seq![123u8, 34, 82, 101, 108, 97, 121, 82, 101, 115, 112, 111, 110, 115, 101, 34, 58, 123, 34, 115, 117, 99, 99, 101, 115, 115, 34, 58]
}

/// `,"message":`
pub open spec fn lit_msg() -> Seq<u8> {
    seq![44u8, 34, 109, 101, 115, 115, 97, 103, 101, 34, 58]
}

/// `true`
pub open spec fn lit_true() -> Seq<u8> {
    seq![116u8, 114, 117, 101]
}

/// `false`
pub open spec fn lit_false() -> Seq<u8> {
    seq![102u8, 97, 108, 115, 101]
}

/// `null`
pub open spec fn lit_null() -> Seq<u8> {
    seq![110u8, 117, 108, 108]
}

/// The payload bytes of a message: its JSON text.
pub open spec fn encode_payload(m: MessageView) -> Seq<u8> {
    match m {
        MessageView::RelayRequest { uuid, peer_id, role } => lit_req_open() + encode_string(uuid)
            + lit_peer() + encode_string(peer_id) + lit_role() + encode_string(role) + lit_close(),
        MessageView::RelayResponse { success, message } => lit_resp_open() + (if success {
            lit_true()
        } else {
            lit_false()
        }) + lit_msg() + (match message {
            Some(s) => encode_string(s),
            None => lit_null(),
        }) + lit_close(),
    }
}

/// The unsigned big-endian value of a 4-byte header.
pub open spec fn be32(s: Seq<u8>) -> int {
    s[0] * 0x1000000 + s[1] * 0x10000 + s[2] * 0x100 + s[3]
}

/// The 4-byte big-endian header for a length.
pub open spec fn be32_bytes(n: int) -> Seq<u8> {
    seq![(n / 0x1000000 % 0x100) as u8, (n / 0x10000 % 0x100) as u8, (n / 0x100 % 0x100) as u8, (
    n % 0x100) as u8]
}

/// The whole frame for a message: header then payload.
pub open spec fn encode_frame(m: MessageView) -> Seq<u8> {
    be32_bytes(encode_payload(m).len() as int) + encode_payload(m)
}

// ---------------------------------------------------------------------------
// Specification: the decoder. It accepts the encoder's output, and raw
// JSON string content (unescaped single bytes and multi-byte UTF-8) the
// way a peer's encoder may leave it.
// ---------------------------------------------------------------------------
/// A single byte that stands for itself inside a string: the JSON-legal
/// unescaped ASCII range (controls must be escaped; quote and backslash
/// carry structure).
pub open spec fn is_plain(b: u8) -> bool {
    32 <= b && b <= 127 && b != 34 && b != 92
}

/// A lowercase hex digit byte.
pub open spec fn is_hex(b: u8) -> bool {
    (48 <= b && b <= 57) || (97 <= b && b <= 102)
}

/// The value of a lowercase hex digit byte.
pub open spec fn hex_val(b: u8) -> u32 {
    if 48 <= b && b <= 57 {
        (b - 48) as u32
    } else {
        (b - 87) as u32
    }
}

/// Whether four lowercase hex digit bytes stand at `i`.
pub open spec fn is_hex4_at(s: Seq<u8>, i: int) -> bool {
    &&& i + 4 <= s.len()
    &&& is_hex(s[i])
    &&& is_hex(s[i + 1])
    &&& is_hex(s[i + 2])
    &&& is_hex(s[i + 3])
}

/// The value of the four hex digit bytes at `i`.
pub open spec fn hex4_at(s: Seq<u8>, i: int) -> u32 {
    (hex_val(s[i]) * 0x1000 + hex_val(s[i + 1]) * 0x100 + hex_val(s[i + 2]) * 0x10 + hex_val(
        s[i + 3],
    )) as u32
}

/// The characters the encoder writes as a `\u` escape: everything that is
/// neither printable ASCII nor one of the five named control escapes.
pub open spec fn needs_u_escape(v: u32) -> bool {
    &&& !(32 <= v && v < 127)
    &&& v != 8
    &&& v != 9
    &&& v != 10
    &&& v != 12
    &&& v != 13
}

/// Parses string characters from position `i` up to a closing quote;
/// yields the characters and the position after the quote. It accepts
/// everything `encode_chars` emits, and additionally the raw form of any
/// character a peer's JSON encoder may leave unescaped: well-formed
/// multi-byte UTF-8 (no overlong forms, no surrogates) and raw DEL.
pub open spec fn parse_chars(s: Seq<u8>, i: int) -> Option<(Seq<char>, int)>
    decreases s.len() - i when 0 <= i <= s.len()
{
    if !(0 <= i && i < s.len()) {
        None
    } else if s[i] == 34 {
        Some((Seq::empty(), i + 1))
    } else if is_plain(s[i]) {
        match parse_chars(s, i + 1) {
            None => None,
            Some((cs, j)) => Some((seq![(s[i] as u32) as char] + cs, j)),
        }
    } else if s[i] == 92 && i + 2 <= s.len() {
        let e = s[i + 1];
        if e == 34 || e == 92 {
            match parse_chars(s, i + 2) {
                None => None,
                Some((cs, j)) => Some((seq![(e as u32) as char] + cs, j)),
            }
        } else if e == 98 || e == 116 || e == 110 || e == 102 || e == 114 {
            let v: u32 = if e == 98 {
                8
            } else if e == 116 {
                9
            } else if e == 110 {
                10
            } else if e == 102 {
                12
            } else {
                13
            };
            match parse_chars(s, i + 2) {
                None => None,
                Some((cs, j)) => Some((seq![v as char] + cs, j)),
            }
        } else if e == 117 && i + 6 <= s.len() && is_hex4_at(s, i + 2) {
            let v = hex4_at(s, i + 2);
            if 0xd800 <= v && v < 0xdc00 {
                if i + 12 <= s.len() && s[i + 6] == 92 && s[i + 7] == 117 && is_hex4_at(s, i + 8) {
                    let v2 = hex4_at(s, i + 8);
                    if 0xdc00 <= v2 && v2 < 0xe000 {
                        match parse_chars(s, i + 12) {
                            None => None,
                            Some((cs, j)) => Some(
                                (
                                    seq![
                                        ((0x10000 + (v - 0xd800) * 0x400 + (v2 - 0xdc00)) as u32)
                                            as char
                                    ] + cs,
                                    j,
                                ),
                            ),
                        }
                    } else {
                        None
                    }
                } else {
                    None
                }
            } else if 0xdc00 <= v && v < 0xe000 {
                None
            } else if needs_u_escape(v) {
                match parse_chars(s, i + 6) {
                    None => None,
                    Some((cs, j)) => Some((seq![v as char] + cs, j)),
                }
            } else {
                None
            }
        } else {
            None
        }
    } else if vstd::utf8::is_leading_byte_width_2(s[i]) {
        if i + 2 <= s.len() && vstd::utf8::is_continuation_byte(s[i + 1]) {
            let v = vstd::utf8::codepoint_width_2(s[i], s[i + 1]);
            if 0x80 <= v {
                match parse_chars(s, i + 2) {
                    None => None,
                    Some((cs, j)) => Some((seq![v as char] + cs, j)),
                }
            } else {
                None
            }
        } else {
            None
        }
    } else if vstd::utf8::is_leading_byte_width_3(s[i]) {
        if i + 3 <= s.len() && vstd::utf8::is_continuation_byte(s[i + 1])
            && vstd::utf8::is_continuation_byte(s[i + 2]) {
            let v = vstd::utf8::codepoint_width_3(s[i], s[i + 1], s[i + 2]);
            if 0x800 <= v && !(0xd800 <= v && v <= 0xdfff) {
                match parse_chars(s, i + 3) {
                    None => None,
                    Some((cs, j)) => Some((seq![v as char] + cs, j)),
                }
            } else {
                None
            }
        } else {
            None
        }
    } else if vstd::utf8::is_leading_byte_width_4(s[i]) {
        if i + 4 <= s.len() && vstd::utf8::is_continuation_byte(s[i + 1])
            && vstd::utf8::is_continuation_byte(s[i + 2]) && vstd::utf8::is_continuation_byte(
            s[i + 3],
        ) {
            let v = vstd::utf8::codepoint_width_4(s[i], s[i + 1], s[i + 2], s[i + 3]);
            if 0x10000 <= v && v <= 0x10ffff {
                match parse_chars(s, i + 4) {
                    None => None,
                    Some((cs, j)) => Some((seq![v as char] + cs, j)),
                }
            } else {
                None
            }
        } else {
            None
        }
    } else {
        None
    }
}

/// Parses a quoted string starting at `i`; inverse of `encode_string`.
pub open spec fn parse_string_at(s: Seq<u8>, i: int) -> Option<(Seq<char>, int)> {
    if 0 <= i && i < s.len() && s[i] == 34 {
        parse_chars(s, i + 1)
    } else {
        None
    }
}

/// Whether the byte run `p` stands at position `i` of `s`.
pub open spec fn starts_at(s: Seq<u8>, i: int, p: Seq<u8>) -> bool {
    0 <= i && i + p.len() <= s.len() && s.subrange(i, i + p.len()) == p
}

/// Parses a whole payload as a handshake message: the compact object form
/// `encode_payload` produces, with string content as `parse_chars` admits
/// it (the encoder's escapes or a peer's raw UTF-8).
#[verifier::opaque]
pub open spec fn parse_payload(s: Seq<u8>) -> Option<MessageView> {
    if starts_at(s, 0, lit_req_open()) {
        match parse_string_at(s, lit_req_open().len() as int) {
            None => None,
            Some((uuid, i1)) => {
                if starts_at(s, i1, lit_peer()) {
                    match parse_string_at(s, i1 + lit_peer().len()) {
                        None => None,
                        Some((peer_id, i2)) => {
                            if starts_at(s, i2, lit_role()) {
                                match parse_string_at(s, i2 + lit_role().len()) {
                                    None => None,
                                    Some((role, i3)) => {
                                        if i3 + lit_close().len() == s.len() && starts_at(
                                            s,
                                            i3,
                                            lit_close(),
                                        ) {
                                            Some(MessageView::RelayRequest { uuid, peer_id, role })
                                        } else {
                                            None
                                        }
                                    },
                                }
                            } else {
                                None
                            }
                        },
                    }
                } else {
                    None
                }
            },
        }
    } else if starts_at(s, 0, lit_resp_open()) {
        let i0 = lit_resp_open().len() as int;
        let (success, i1): (bool, int) = if starts_at(s, i0, lit_true()) {
            (true, i0 + lit_true().len())
        } else if starts_at(s, i0, lit_false()) {
            (false, i0 + lit_false().len())
        } else {
            (false, -1)
        };
        if i1 < 0 {
            None
        } else if starts_at(s, i1, lit_msg()) {
            let i2 = i1 + lit_msg().len();
            if starts_at(s, i2, lit_null()) {
                if i2 + lit_null().len() + lit_close().len() == s.len() && starts_at(
                    s,
                    i2 + lit_null().len(),
                    lit_close(),
                ) {
                    Some(MessageView::RelayResponse { success, message: None })
                } else {
                    None
                }
            } else {
                match parse_string_at(s, i2) {
                    None => None,
                    Some((text, i3)) => {
                        if i3 + lit_close().len() == s.len() && starts_at(s, i3, lit_close()) {
                            Some(MessageView::RelayResponse { success, message: Some(text) })
                        } else {
                            None
                        }
                    },
                }
            }
        } else {
            None
        }
    } else {
        None
    }
}

/// What decoding a whole frame yields: each error names exactly the inputs
/// on which it arises, in the order the checks are made.
pub open spec fn decode_frame(s: Seq<u8>) -> Result<MessageView, FormatError> {
    if s.len() < 4 {
        Err(FormatError::TooShort)
    } else if be32(s) > MAX_MESSAGE_SIZE {
        Err(FormatError::TooLarge)
    } else if s.len() - 4 < be32(s) {
        Err(FormatError::Incomplete)
    } else {
        match parse_payload(s.subrange(4, 4 + be32(s))) {
            Some(m) => Ok(m),
            None => Err(FormatError::Malformed),
        }
    }
}

// ---------------------------------------------------------------------------
// Executable encoder.
// ---------------------------------------------------------------------------
/// Concatenating character runs concatenates their encodings.
pub proof fn lemma_encode_chars_concat(a: Seq<char>, b: Seq<char>)
    ensures
        encode_chars(a + b) == encode_chars(a) + encode_chars(b),
    decreases a.len(),
{
    if a.len() == 0 {
        assert(a + b =~= b);
        assert(encode_chars(a) + encode_chars(b) =~= encode_chars(b));
    } else {
        assert((a + b).drop_first() =~= a.drop_first() + b);
        lemma_encode_chars_concat(a.drop_first(), b);
        assert((a + b)[0] == a[0]);
        assert(encode_char(a[0]) + (encode_chars(a.drop_first()) + encode_chars(b)) =~= (
        encode_char(a[0]) + encode_chars(a.drop_first())) + encode_chars(b));
    }
}

/// Relies on String::push: appends exactly the one character.
#[verifier::external_body]
fn push_char(s: &mut String, c: char)
    ensures
        final(s)@ == old(s)@.push(c),
{
    s.push(c);
}

/// Relies on char::from_u32: yields a character exactly on Unicode scalar
/// values (below the surrogate range, or above it up to the largest code
/// point), and that character converts back to the same number.
#[verifier::external_body]
fn char_from_u32(v: u32) -> (r: Option<char>)
    ensures
        match r {
            Some(c) => c as u32 == v,
            None => !(v < 0xd800 || (0xe000 <= v && v <= 0x10ffff)),
        },
{
    char::from_u32(v)
}

fn hex_digit_x(d: u32) -> (r: u8)
    requires
        d < 16,
    ensures
        r == hex_digit(d),
{
    if d < 10 {
        (48 + d) as u8
    } else {
        (87 + d) as u8
    }
}

fn push_hex4(out: &mut Vec<u8>, v: u32)
    requires
        v < 0x10000,
    ensures
        final(out)@ == old(out)@ + hex4(v),
{
    let d0 = hex_digit_x(v / 0x1000 % 0x10);
    let d1 = hex_digit_x(v / 0x100 % 0x10);
    let d2 = hex_digit_x(v / 0x10 % 0x10);
    let d3 = hex_digit_x(v % 0x10);
    out.push(d0);
    out.push(d1);
    out.push(d2);
    out.push(d3);
    proof {
        assert(final(out)@ =~= old(out)@ + hex4(v));
    }
}

fn push_char_bytes(out: &mut Vec<u8>, c: char)
    ensures
        final(out)@ == old(out)@ + encode_char(c),
{
    let v = c as u32;
    proof {
        vstd::utf8::char_is_scalar(c);
    }
    if v == 34 {
        out.push(92);
        out.push(34);
    } else if v == 92 {
        out.push(92);
        out.push(92);
    } else if 32 <= v && v < 127 {
        out.push(v as u8);
    } else if v == 8 {
        out.push(92);
        out.push(98);
    } else if v == 9 {
        out.push(92);
        out.push(116);
    } else if v == 10 {
        out.push(92);
        out.push(110);
    } else if v == 12 {
        out.push(92);
        out.push(102);
    } else if v == 13 {
        out.push(92);
        out.push(114);
    } else if v < 0x10000 {
        out.push(92);
        out.push(117);
        push_hex4(out, v);
    } else {
        let x = v - 0x10000;
        proof {
            assert(x < 0x100000);
            assert(x / 0x400 < 0x400) by (nonlinear_arith)
                requires
                    x < 0x100000,
            ;
            assert(x % 0x400 < 0x400) by (nonlinear_arith);
        }
        let hi = 0xd800 + x / 0x400;
        let lo = 0xdc00 + x % 0x400;
        out.push(92);
        out.push(117);
        push_hex4(out, hi);
        out.push(92);
        out.push(117);
        push_hex4(out, lo);
    }
    proof {
        assert(final(out)@ =~= old(out)@ + encode_char(c));
    }
}

use vstd::string::StrSliceExecFns;

fn encode_string_into(out: &mut Vec<u8>, s: &String)
    ensures
        final(out)@ == old(out)@ + encode_string(s@),
{
    out.push(34);
    let n = s.as_str().unicode_len();
    let mut i: usize = 0;
    while i < n
        invariant
            n == s@.len(),
            i <= n,
            out@ == old(out)@ + seq![34u8] + encode_chars(s@.subrange(0, i as int)),
        decreases n - i,
    {
        let c = s.as_str().get_char(i);
        push_char_bytes(out, c);
        proof {
            lemma_encode_chars_concat(s@.subrange(0, i as int), seq![s@[i as int]]);
            assert(s@.subrange(0, i as int) + seq![s@[i as int]] =~= s@.subrange(0, i + 1 as int));
            assert(seq![c].drop_first() =~= Seq::<char>::empty());
            reveal_with_fuel(encode_chars, 2);
            assert(encode_chars(seq![c]) =~= encode_char(c));
            assert(old(out)@ + seq![34u8] + encode_chars(s@.subrange(0, i as int)) + encode_char(c)
                =~= old(out)@ + seq![34u8] + (encode_chars(s@.subrange(0, i as int)) + encode_chars(
                seq![c],
            )));
        }
        i = i + 1;
    }
    out.push(34);
    proof {
        assert(s@.subrange(0, n as int) =~= s@);
        assert(final(out)@ =~= old(out)@ + encode_string(s@));
    }
}

fn make_lit_req_open() -> (r: Vec<u8>)
    ensures
        r@ == lit_req_open(),
{
    let mut v: Vec<u8> = Vec::new();
    v.push(123);
    v.push(34);
    v.push(82);
    v.push(101);
    v.push(108);
    v.push(97);
    v.push(121);
    v.push(82);
    v.push(101);
    v.push(113);
    v.push(117);
    v.push(101);
    v.push(115);
    v.push(116);
    v.push(34);
    v.push(58);
    v.push(123);
    v.push(34);
    v.push(117);
    v.push(117);
    v.push(105);
    v.push(100);
    v.push(34);
    v.push(58);
    proof {
        assert(v@ =~= lit_req_open());
    }
    v
}

fn make_lit_peer() -> (r: Vec<u8>)
    ensures
        r@ == lit_peer(),
{
    let mut v: Vec<u8> = Vec::new();
    v.push(44);
    v.push(34);
    v.push(112);
    v.push(101);
    v.push(101);
    v.push(114);
    v.push(95);
    v.push(105);
    v.push(100);
    v.push(34);
    v.push(58);
    proof {
        assert(v@ =~= lit_peer());
    }
    v
}

fn make_lit_role() -> (r: Vec<u8>)
    ensures
        r@ == lit_role(),
{
    let mut v: Vec<u8> = Vec::new();
    v.push(44);
    v.push(34);
    v.push(114);
    v.push(111);
    v.push(108);
    v.push(101);
    v.push(34);
    v.push(58);
    proof {
        assert(v@ =~= lit_role());
    }
    v
}

fn make_lit_close() -> (r: Vec<u8>)
    ensures
        r@ == lit_close(),
{
    let mut v: Vec<u8> = Vec::new();
    v.push(125);
    v.push(125);
    proof {
        assert(v@ =~= lit_close());
    }
    v
}

fn make_lit_resp_open() -> (r: Vec<u8>)
    ensures
        r@ == lit_resp_open(),
{
    let mut v: Vec<u8> = Vec::new();
    v.push(123);
    v.push(34);
    v.push(82);
    v.push(101);
    v.push(108);
    v.push(97);
    v.push(121);
    v.push(82);
    v.push(101);
    v.push(115);
    v.push(112);
    v.push(111);
    v.push(110);
    v.push(115);
    v.push(101);
    v.push(34);
    v.push(58);
    v.push(123);
    v.push(34);
    v.push(115);
    v.push(117);
    v.push(99);
    v.push(99);
    v.push(101);
    v.push(115);
    v.push(115);
    v.push(34);
    v.push(58);
    proof {
        assert(v@ =~= lit_resp_open());
    }
    v
}

fn make_lit_msg() -> (r: Vec<u8>)
    ensures
        r@ == lit_msg(),
{
    let mut v: Vec<u8> = Vec::new();
    v.push(44);
    v.push(34);
    v.push(109);
    v.push(101);
    v.push(115);
    v.push(115);
    v.push(97);
    v.push(103);
    v.push(101);
    v.push(34);
    v.push(58);
    proof {
        assert(v@ =~= lit_msg());
    }
    v
}

fn make_lit_true() -> (r: Vec<u8>)
    ensures
        r@ == lit_true(),
{
    let mut v: Vec<u8> = Vec::new();
    v.push(116);
    v.push(114);
    v.push(117);
    v.push(101);
    proof {
        assert(v@ =~= lit_true());
    }
    v
}

fn make_lit_false() -> (r: Vec<u8>)
    ensures
        r@ == lit_false(),
{
    let mut v: Vec<u8> = Vec::new();
    v.push(102);
    v.push(97);
    v.push(108);
    v.push(115);
    v.push(101);
    proof {
        assert(v@ =~= lit_false());
    }
    v
}

fn make_lit_null() -> (r: Vec<u8>)
    ensures
        r@ == lit_null(),
{
    let mut v: Vec<u8> = Vec::new();
    v.push(110);
    v.push(117);
    v.push(108);
    v.push(108);
    proof {
        assert(v@ =~= lit_null());
    }
    v
}


/// The payload bytes (the JSON text) of a message.
fn encode_payload_vec(m: &Message) -> (r: Vec<u8>)
    ensures
        r@ == encode_payload(m@),
{
    let mut out: Vec<u8> = Vec::new();
    match m {
        Message::RelayRequest { uuid, peer_id, role } => {
            let mut l0 = make_lit_req_open();
            out.append(&mut l0);
            encode_string_into(&mut out, uuid);
            let mut l1 = make_lit_peer();
            out.append(&mut l1);
            encode_string_into(&mut out, peer_id);
            let mut l2 = make_lit_role();
            out.append(&mut l2);
            encode_string_into(&mut out, role);
            let mut l3 = make_lit_close();
            out.append(&mut l3);
            proof {
                assert(out@ =~= encode_payload(m@));
            }
        },
        Message::RelayResponse { success, message } => {
            let mut l0 = make_lit_resp_open();
            out.append(&mut l0);
            if *success {
                let mut lb = make_lit_true();
                out.append(&mut lb);
            } else {
                let mut lb = make_lit_false();
                out.append(&mut lb);
            }
            let mut l1 = make_lit_msg();
            out.append(&mut l1);
            match message {
                Some(text) => encode_string_into(&mut out, text),
                None => {
                    let mut ln = make_lit_null();
                    out.append(&mut ln);
                },
            }
            let mut l2 = make_lit_close();
            out.append(&mut l2);
            proof {
                assert(out@ =~= encode_payload(m@));
            }
        },
    }
    out
}

impl Message {
    /// Serializes the message as a frame: a 4-byte big-endian length prefix
    /// followed by the payload of exactly that many bytes. Succeeds for
    /// every payload the 4-byte prefix can measure; only a payload beyond
    /// the prefix's range is refused (the frame-size cap is the decoder's
    /// check, not the encoder's).
    pub fn to_bytes(&self) -> (r: Result<Vec<u8>, FormatError>)
        ensures
            match r {
                Ok(v) => encode_payload(self@).len() <= u32::MAX && v@ == encode_frame(self@),
                Err(e) => encode_payload(self@).len() > u32::MAX && e == FormatError::TooLarge,
            },
    {
        let mut payload = encode_payload_vec(self);
        if payload.len() > u32::MAX as usize {
            return Err(FormatError::TooLarge);
        }
        let n = payload.len() as u32;
        let mut frame: Vec<u8> = Vec::new();
        frame.push((n / 0x1000000 % 0x100) as u8);
        frame.push((n / 0x10000 % 0x100) as u8);
        frame.push((n / 0x100 % 0x100) as u8);
        frame.push((n % 0x100) as u8);
        frame.append(&mut payload);
        proof {
            assert(frame@ =~= encode_frame(self@));
        }
        Ok(frame)
    }
}

// ---------------------------------------------------------------------------
// Executable decoder.
// ---------------------------------------------------------------------------
fn is_hex_x(b: u8) -> (r: bool)
    ensures
        r == is_hex(b),
{
    (48 <= b && b <= 57) || (97 <= b && b <= 102)
}

fn hex_val_x(b: u8) -> (r: u32)
    requires
        is_hex(b),
    ensures
        r == hex_val(b),
{
    if b <= 57 {
        (b - 48) as u32
    } else {
        (b - 87) as u32
    }
}

fn match_at(data: &Vec<u8>, i: usize, pat: &Vec<u8>) -> (r: bool)
    requires
        i <= data@.len(),
    ensures
        r == starts_at(data@, i as int, pat@),
{
    let dl = data.len();
    if dl - i < pat.len() {
        return false;
    }
    let n = pat.len();
    let mut k: usize = 0;
    while k < n
        invariant
            dl == data@.len(),
            n == pat@.len(),
            i + n <= dl,
            k <= n,
            forall|t: int| 0 <= t < k ==> data@[i + t] == pat@[t],
        decreases n - k,
    {
        if data[i + k] != pat[k] {
            proof {
                if starts_at(data@, i as int, pat@) {
                    assert(data@.subrange(i as int, i + pat@.len())[k as int] == pat@[k as int]);
                }
            }
            return false;
        }
        k = k + 1;
    }
    proof {
        assert(data@.subrange(i as int, i + pat@.len()) =~= pat@);
    }
    true
}

#[verifier::rlimit(80)]
fn parse_string_x(data: &Vec<u8>, i: usize) -> (r: Option<(String, usize)>)
    ensures
        match r {
            Some(p) => parse_string_at(data@, i as int) == Some((p.0@, p.1 as int)) && p.1
                <= data@.len(),
            None => parse_string_at(data@, i as int) is None,
        },
{
    if !(i < data.len() && data[i] == 34) {
        return None;
    }
    let ghost i0: int = i + 1;
    let mut acc = String::new();
    let mut j: usize = i + 1;
    loop
        invariant
            i < data@.len(),
            data@[i as int] == 34,
            i0 == i + 1,
            i0 <= j <= data@.len(),
            match parse_chars(data@, j as int) {
                None => parse_chars(data@, i0) is None,
                Some(p) => parse_chars(data@, i0) == Some((acc@ + p.0, p.1)),
            },
        decreases data@.len() - j,
    {
        if j >= data.len() {
            return None;
        }
        let b = data[j];
        if b == 34 {
            proof {
                assert(parse_chars(data@, j as int) == Some((Seq::<char>::empty(), j + 1 as int)));
                assert(acc@ + Seq::<char>::empty() =~= acc@);
            }
            return Some((acc, j + 1));
        } else if 32 <= b && b <= 127 && b != 92 {
            let c = match char_from_u32(b as u32) {
                Some(c) => c,
                None => {
                    proof {
                        assert(false);
                    }
                    return None;
                },
            };
            let ghost acc0 = acc@;
            push_char(&mut acc, c);
            proof {
                vstd::utf8::char_u32_cast(c, b as u32);
                match parse_chars(data@, j + 1 as int) {
                    None => {
                        assert(parse_chars(data@, j as int) is None);
                    },
                    Some(p) => {
                        assert(parse_chars(data@, j as int) == Some((seq![c] + p.0, p.1)));
                        assert(acc0 + (seq![c] + p.0) =~= acc@ + p.0);
                    },
                }
            }
            j = j + 1;
        } else if b == 92 {
            if data.len() - j < 2 {
                return None;
            }
            let e = data[j + 1];
            if e == 34 || e == 92 || e == 98 || e == 116 || e == 110 || e == 102 || e == 114 {
                let v: u32 = if e == 34 {
                    34
                } else if e == 92 {
                    92
                } else if e == 98 {
                    8
                } else if e == 116 {
                    9
                } else if e == 110 {
                    10
                } else if e == 102 {
                    12
                } else {
                    13
                };
                let c = match char_from_u32(v) {
                    Some(c) => c,
                    None => {
                        proof {
                            assert(false);
                        }
                        return None;
                    },
                };
                let ghost acc0 = acc@;
                push_char(&mut acc, c);
                proof {
                    vstd::utf8::char_u32_cast(c, v);
                    match parse_chars(data@, j + 2 as int) {
                        None => {
                            assert(parse_chars(data@, j as int) is None);
                        },
                        Some(p) => {
                            assert(parse_chars(data@, j as int) == Some((seq![c] + p.0, p.1)));
                            assert(acc0 + (seq![c] + p.0) =~= acc@ + p.0);
                        },
                    }
                }
                j = j + 2;
            } else if e == 117 {
                if data.len() - j < 6 {
                    return None;
                }
                let h0 = data[j + 2];
                let h1 = data[j + 3];
                let h2 = data[j + 4];
                let h3 = data[j + 5];
                if !(is_hex_x(h0) && is_hex_x(h1) && is_hex_x(h2) && is_hex_x(h3)) {
                    return None;
                }
                let v: u32 = hex_val_x(h0) * 0x1000 + hex_val_x(h1) * 0x100 + hex_val_x(h2) * 0x10
                    + hex_val_x(h3);
                proof {
                    assert(v == hex4_at(data@, j + 2 as int));
                }
                if 0xd800 <= v && v < 0xdc00 {
                    if data.len() - j < 12 {
                        return None;
                    }
                    if !(data[j + 6] == 92 && data[j + 7] == 117) {
                        return None;
                    }
                    let g0 = data[j + 8];
                    let g1 = data[j + 9];
                    let g2 = data[j + 10];
                    let g3 = data[j + 11];
                    if !(is_hex_x(g0) && is_hex_x(g1) && is_hex_x(g2) && is_hex_x(g3)) {
                        return None;
                    }
                    let v2: u32 = hex_val_x(g0) * 0x1000 + hex_val_x(g1) * 0x100 + hex_val_x(g2)
                        * 0x10 + hex_val_x(g3);
                    proof {
                        assert(v2 == hex4_at(data@, j + 8 as int));
                    }
                    if !(0xdc00 <= v2 && v2 < 0xe000) {
                        return None;
                    }
                    let u: u32 = 0x10000 + (v - 0xd800) * 0x400 + (v2 - 0xdc00);
                    let c = match char_from_u32(u) {
                        Some(c) => c,
                        None => {
                            proof {
                                assert(false);
                            }
                            return None;
                        },
                    };
                    let ghost acc0 = acc@;
                    push_char(&mut acc, c);
                    proof {
                        vstd::utf8::char_u32_cast(c, u);
                        match parse_chars(data@, j + 12 as int) {
                            None => {
                                assert(parse_chars(data@, j as int) is None);
                            },
                            Some(p) => {
                                assert(parse_chars(data@, j as int) == Some((seq![c] + p.0, p.1)));
                                assert(acc0 + (seq![c] + p.0) =~= acc@ + p.0);
                            },
                        }
                    }
                    j = j + 12;
                } else if 0xdc00 <= v && v < 0xe000 {
                    return None;
                } else {
                    let canonical = !(32 <= v && v < 127) && v != 8 && v != 9 && v != 10 && v != 12
                        && v != 13;
                    if !canonical {
                        return None;
                    }
                    let c = match char_from_u32(v) {
                        Some(c) => c,
                        None => {
                            proof {
                                assert(false);
                            }
                            return None;
                        },
                    };
                    let ghost acc0 = acc@;
                    push_char(&mut acc, c);
                    proof {
                        vstd::utf8::char_u32_cast(c, v);
                        match parse_chars(data@, j + 6 as int) {
                            None => {
                                assert(parse_chars(data@, j as int) is None);
                            },
                            Some(p) => {
                                assert(parse_chars(data@, j as int) == Some((seq![c] + p.0, p.1)));
                                assert(acc0 + (seq![c] + p.0) =~= acc@ + p.0);
                            },
                        }
                    }
                    j = j + 6;
                }
            } else {
                return None;
            }
        } else if 0xc0 <= b && b <= 0xdf {
            if data.len() - j < 2 {
                return None;
            }
            let b1 = data[j + 1];
            if !(0x80 <= b1 && b1 <= 0xbf) {
                return None;
            }
            let v: u32 = (((b & 0x1f) as u32) << 6) | ((b1 & 0x3f) as u32);
            proof {
                assert(v == vstd::utf8::codepoint_width_2(b, b1));
                assert(v <= 0x7ff) by (bit_vector)
                    requires
                        v == (((b & 0x1f) as u32) << 6) | ((b1 & 0x3f) as u32),
                ;
            }
            if v < 0x80 {
                return None;
            }
            let c = match char_from_u32(v) {
                Some(c) => c,
                None => {
                    proof {
                        assert(false);
                    }
                    return None;
                },
            };
            let ghost acc0 = acc@;
            push_char(&mut acc, c);
            proof {
                vstd::utf8::char_u32_cast(c, v);
                match parse_chars(data@, j + 2 as int) {
                    None => {
                        assert(parse_chars(data@, j as int) is None);
                    },
                    Some(p) => {
                        assert(parse_chars(data@, j as int) == Some((seq![c] + p.0, p.1)));
                        assert(acc0 + (seq![c] + p.0) =~= acc@ + p.0);
                    },
                }
            }
            j = j + 2;
        } else if 0xe0 <= b && b <= 0xef {
            if data.len() - j < 3 {
                return None;
            }
            let b1 = data[j + 1];
            let b2 = data[j + 2];
            if !(0x80 <= b1 && b1 <= 0xbf && 0x80 <= b2 && b2 <= 0xbf) {
                return None;
            }
            let v: u32 = (((b & 0x0f) as u32) << 12) | (((b1 & 0x3f) as u32) << 6) | ((b2
                & 0x3f) as u32);
            proof {
                assert(v == vstd::utf8::codepoint_width_3(b, b1, b2));
                assert(v <= 0xffff) by (bit_vector)
                    requires
                        v == (((b & 0x0f) as u32) << 12) | (((b1 & 0x3f) as u32) << 6) | ((b2
                            & 0x3f) as u32),
                ;
            }
            if !(0x800 <= v && !(0xd800 <= v && v <= 0xdfff)) {
                return None;
            }
            let c = match char_from_u32(v) {
                Some(c) => c,
                None => {
                    proof {
                        assert(false);
                    }
                    return None;
                },
            };
            let ghost acc0 = acc@;
            push_char(&mut acc, c);
            proof {
                vstd::utf8::char_u32_cast(c, v);
                match parse_chars(data@, j + 3 as int) {
                    None => {
                        assert(parse_chars(data@, j as int) is None);
                    },
                    Some(p) => {
                        assert(parse_chars(data@, j as int) == Some((seq![c] + p.0, p.1)));
                        assert(acc0 + (seq![c] + p.0) =~= acc@ + p.0);
                    },
                }
            }
            j = j + 3;
        } else if 0xf0 <= b && b <= 0xf7 {
            if data.len() - j < 4 {
                return None;
            }
            let b1 = data[j + 1];
            let b2 = data[j + 2];
            let b3 = data[j + 3];
            if !(0x80 <= b1 && b1 <= 0xbf && 0x80 <= b2 && b2 <= 0xbf && 0x80 <= b3 && b3
                <= 0xbf) {
                return None;
            }
            let v: u32 = (((b & 0x07) as u32) << 18) | (((b1 & 0x3f) as u32) << 12) | (((b2
                & 0x3f) as u32) << 6) | ((b3 & 0x3f) as u32);
            proof {
                assert(v == vstd::utf8::codepoint_width_4(b, b1, b2, b3));
            }
            if !(0x10000 <= v && v <= 0x10ffff) {
                return None;
            }
            let c = match char_from_u32(v) {
                Some(c) => c,
                None => {
                    proof {
                        assert(false);
                    }
                    return None;
                },
            };
            let ghost acc0 = acc@;
            push_char(&mut acc, c);
            proof {
                vstd::utf8::char_u32_cast(c, v);
                match parse_chars(data@, j + 4 as int) {
                    None => {
                        assert(parse_chars(data@, j as int) is None);
                    },
                    Some(p) => {
                        assert(parse_chars(data@, j as int) == Some((seq![c] + p.0, p.1)));
                        assert(acc0 + (seq![c] + p.0) =~= acc@ + p.0);
                    },
                }
            }
            j = j + 4;
        } else {
            return None;
        }
    }
}

/// Parses payload bytes (the JSON text alone, no length prefix) as a
/// handshake message; yields None exactly when `parse_payload` admits no
/// message for these bytes.
pub fn parse_payload_bytes(data: &Vec<u8>) -> (r: Option<Message>)
    ensures
        match r {
            Some(m) => parse_payload(data@) == Some(m@),
            None => parse_payload(data@) is None,
        },
{
    proof {
        reveal(parse_payload);
    }
    let dl = data.len();
    let lro = make_lit_req_open();
    let lc = make_lit_close();
    if match_at(data, 0, &lro) {
        let (uuid, i1) = match parse_string_x(data, lro.len()) {
            Some(p) => p,
            None => {
                return None;
            },
        };
        let lp = make_lit_peer();
        if !match_at(data, i1, &lp) {
            return None;
        }
        proof {
            assert(i1 + lp@.len() <= data@.len());
        }
        let (peer_id, i2) = match parse_string_x(data, i1 + lp.len()) {
            Some(p) => p,
            None => {
                return None;
            },
        };
        let lr = make_lit_role();
        if !match_at(data, i2, &lr) {
            return None;
        }
        proof {
            assert(i2 + lr@.len() <= data@.len());
        }
        let (role, i3) = match parse_string_x(data, i2 + lr.len()) {
            Some(p) => p,
            None => {
                return None;
            },
        };
        if match_at(data, i3, &lc) && data.len() - i3 == lc.len() {
            return Some(Message::RelayRequest { uuid, peer_id, role });
        }
        return None;
    }
    let lrs = make_lit_resp_open();
    if match_at(data, 0, &lrs) {
        let lt = make_lit_true();
        let lf = make_lit_false();
        let (success, i1): (bool, usize) = if match_at(data, lrs.len(), &lt) {
            (true, lrs.len() + lt.len())
        } else if match_at(data, lrs.len(), &lf) {
            (false, lrs.len() + lf.len())
        } else {
            return None;
        };
        let lm = make_lit_msg();
        if !match_at(data, i1, &lm) {
            return None;
        }
        proof {
            assert(i1 + lm@.len() <= data@.len());
        }
        let i2 = i1 + lm.len();
        let ln = make_lit_null();
        if match_at(data, i2, &ln) {
            proof {
                assert(i2 + ln@.len() <= data@.len());
            }
            if match_at(data, i2 + ln.len(), &lc) && data.len() - i2 == ln.len() + lc.len() {
                return Some(Message::RelayResponse { success, message: None });
            }
            return None;
        }
        match parse_string_x(data, i2) {
            None => {
                return None;
            },
            Some((text, i3)) => {
                if match_at(data, i3, &lc) && data.len() - i3 == lc.len() {
                    return Some(Message::RelayResponse { success, message: Some(text) });
                }
                return None;
            },
        }
    }
    None
}

impl Message {
    /// Decodes a frame: reads the 4-byte big-endian length prefix, bounds it
    /// by the maximum frame size, and parses that many payload bytes as a
    /// handshake message. Bytes after the declared payload are ignored. The
    /// result is exactly what `decode_frame` says for these bytes.
    pub fn from_bytes(data: &Vec<u8>) -> (r: Result<Message, FormatError>)
        ensures
            match r {
                Ok(m) => decode_frame(data@) == Ok::<MessageView, FormatError>(m@),
                Err(e) => decode_frame(data@) == Err::<MessageView, FormatError>(e),
            },
    {
        if data.len() < 4 {
            return Err(FormatError::TooShort);
        }
        let n: u32 = (data[0] as u32) * 0x1000000 + (data[1] as u32) * 0x10000 + (data[2] as u32)
            * 0x100 + (data[3] as u32);
        proof {
            assert(n == be32(data@));
        }
        if n > MAX_MESSAGE_SIZE as u32 {
            return Err(FormatError::TooLarge);
        }
        let nn = n as usize;
        if data.len() - 4 < nn {
            return Err(FormatError::Incomplete);
        }
        let dl = data.len();
        let mut payload: Vec<u8> = Vec::new();
        let mut k: usize = 0;
        while k < nn
            invariant
                dl == data@.len(),
                nn + 4 <= dl,
                k <= nn,
                payload@ == data@.subrange(4, 4 + k as int),
            decreases nn - k,
        {
            payload.push(data[4 + k]);
            proof {
                assert(payload@ =~= data@.subrange(4, 4 + (k + 1 as int)));
            }
            k = k + 1;
        }
        proof {
            assert(payload@ =~= data@.subrange(4, 4 + be32(data@)));
        }
        match parse_payload_bytes(&payload) {
            Some(m) => Ok(m),
            None => Err(FormatError::Malformed),
        }
    }
}

// ---------------------------------------------------------------------------
// Round trip: the decoder accepts everything the encoder produces.
// ---------------------------------------------------------------------------
proof fn lemma_hex4_props(v: u32, buf: Seq<u8>, i: int)
    requires
        v < 0x10000,
        0 <= i,
        i + 4 <= buf.len(),
        buf.subrange(i, i + 4) == hex4(v),
    ensures
        is_hex4_at(buf, i),
        hex4_at(buf, i) == v,
{
    assert(buf[i] == hex4(v)[0]);
    assert(buf[i + 1] == hex4(v)[1]);
    assert(buf[i + 2] == hex4(v)[2]);
    assert(buf[i + 3] == hex4(v)[3]);
    assert(v / 0x1000 % 0x10 * 0x1000 + v / 0x100 % 0x10 * 0x100 + v / 0x10 % 0x10 * 0x10 + v
        % 0x10 == v) by (bit_vector)
        requires
            v < 0x10000,
    ;
}

proof fn lemma_step_u_bmp(c: char, buf: Seq<u8>, i: int, cs: Seq<char>, end: int)
    requires
        0 <= i,
        needs_u_escape(c as u32),
        (c as u32) < 0x10000,
        i + encode_char(c).len() <= buf.len(),
        buf.subrange(i, i + encode_char(c).len()) == encode_char(c),
        parse_chars(buf, i + encode_char(c).len()) == Some((cs, end)),
    ensures
        parse_chars(buf, i) == Some((seq![c] + cs, end)),
{
    let v = c as u32;
    let e = encode_char(c);
    vstd::utf8::char_is_scalar(c);
    vstd::utf8::char_u32_cast(c, v);
    assert(e == seq![92u8, 117] + hex4(v));
    assert forall|k: int| 0 <= k < e.len() implies buf[i + k] == e[k] by {
        assert(buf.subrange(i, i + e.len())[k] == e[k]);
    }
    assert(e[0] == 92 && e[1] == 117);
    assert(buf[i + 0] == e[0]);
    assert(buf[i + 1] == e[1]);
    assert(buf[i] == 92 && buf[i + 1] == 117);
    assert(buf.subrange(i + 2, i + 6) =~= hex4(v)) by {
        assert forall|k: int| 0 <= k < 4 implies buf[i + 2 + k] == hex4(v)[k] by {
            assert(buf[i + (2 + k)] == e[2 + k]);
        }
    }
    lemma_hex4_props(v, buf, i + 2);
    assert(!(0xd800 <= v && v < 0xdc00) && !(0xdc00 <= v && v < 0xe000));
}

proof fn lemma_step_u_astral(c: char, buf: Seq<u8>, i: int, cs: Seq<char>, end: int)
    requires
        0 <= i,
        (c as u32) >= 0x10000,
        i + encode_char(c).len() <= buf.len(),
        buf.subrange(i, i + encode_char(c).len()) == encode_char(c),
        parse_chars(buf, i + encode_char(c).len()) == Some((cs, end)),
    ensures
        parse_chars(buf, i) == Some((seq![c] + cs, end)),
{
    let v = c as u32;
    let e = encode_char(c);
    vstd::utf8::char_is_scalar(c);
    vstd::utf8::char_u32_cast(c, v);
    let x = v - 0x10000;
    assert(x < 0x100000);
    assert(x / 0x400 < 0x400) by (nonlinear_arith)
        requires
            x < 0x100000,
    ;
    assert(x % 0x400 < 0x400) by (nonlinear_arith);
    let hi = (0xd800 + x / 0x400) as u32;
    let lo = (0xdc00 + x % 0x400) as u32;
    assert(e == seq![92u8, 117] + hex4(hi) + seq![92u8, 117] + hex4(lo));
    assert forall|k: int| 0 <= k < e.len() implies buf[i + k] == e[k] by {
        assert(buf.subrange(i, i + e.len())[k] == e[k]);
    }
    assert(e[0] == 92 && e[1] == 117);
    assert(e[6] == 92 && e[7] == 117);
    assert(buf[i + 0] == e[0]);
    assert(buf[i + 1] == e[1]);
    assert(buf[i + 6] == e[6]);
    assert(buf[i + 7] == e[7]);
    assert(buf[i] == 92 && buf[i + 1] == 117);
    assert(buf[i + 6] == 92 && buf[i + 7] == 117);
    assert(buf.subrange(i + 2, i + 6) =~= hex4(hi)) by {
        assert forall|k: int| 0 <= k < 4 implies buf[i + 2 + k] == hex4(hi)[k] by {
            assert(buf[i + (2 + k)] == e[2 + k]);
        }
    }
    assert(buf.subrange(i + 8, i + 12) =~= hex4(lo)) by {
        assert forall|k: int| 0 <= k < 4 implies buf[i + 8 + k] == hex4(lo)[k] by {
            assert(buf[i + (8 + k)] == e[8 + k]);
        }
    }
    lemma_hex4_props(hi, buf, i + 2);
    lemma_hex4_props(lo, buf, i + 8);
    assert(0xd800 <= hi && hi < 0xdc00);
    assert(0xdc00 <= lo && lo < 0xe000);
    assert((hi - 0xd800) * 0x400 + (lo - 0xdc00) == x) by {
        vstd::arithmetic::div_mod::lemma_fundamental_div_mod(x as int, 0x400);
    }
    assert((0x10000 + (hi - 0xd800) * 0x400 + (lo - 0xdc00)) as u32 == v);
}

/// One encoded character at `i`, with whatever parses after it, parses to
/// that character followed by the rest.
proof fn lemma_parse_char_step(c: char, buf: Seq<u8>, i: int, cs: Seq<char>, end: int)
    requires
        0 <= i,
        i + encode_char(c).len() <= buf.len(),
        buf.subrange(i, i + encode_char(c).len()) == encode_char(c),
        parse_chars(buf, i + encode_char(c).len()) == Some((cs, end)),
    ensures
        parse_chars(buf, i) == Some((seq![c] + cs, end)),
{
    let v = c as u32;
    let e = encode_char(c);
    vstd::utf8::char_is_scalar(c);
    vstd::utf8::char_u32_cast(c, v);
    if v == 34 || v == 92 || (32 <= v && v < 127) || v == 8 || v == 9 || v == 10 || v == 12 || v
        == 13 {
        assert forall|k: int| 0 <= k < e.len() implies buf[i + k] == e[k] by {
            assert(buf.subrange(i, i + e.len())[k] == e[k]);
        }
        assert(buf[i + 0] == e[0]);
        if v == 34 {
            assert(buf[i] == 92 && buf[i + 1] == 34);
        } else if v == 92 {
            assert(buf[i] == 92 && buf[i + 1] == 92);
        } else if 32 <= v && v < 127 {
            assert(buf[i] == v as u8);
            assert(is_plain(buf[i]));
            assert((buf[i] as u32) as char == c);
        } else {
            assert(buf[i] == 92);
            assert(buf[i + 1] == e[1]);
        }
    } else if v < 0x10000 {
        lemma_step_u_bmp(c, buf, i, cs, end);
    } else {
        lemma_step_u_astral(c, buf, i, cs, end);
    }
}

/// Parsing the encoding of `s`, followed by a closing quote, recovers `s`
/// exactly and stops after the quote.
proof fn lemma_parse_chars_encode(s: Seq<char>, buf: Seq<u8>, i: int)
    requires
        0 <= i,
        i + encode_chars(s).len() + 1 <= buf.len(),
        buf.subrange(i, i + encode_chars(s).len() + 1) == encode_chars(s) + seq![34u8],
    ensures
        parse_chars(buf, i) == Some((s, i + encode_chars(s).len() + 1)),
    decreases s.len(),
{
    let whole = encode_chars(s) + seq![34u8];
    let ell = encode_chars(s).len() + 1;
    assert forall|k: int| 0 <= k < ell implies buf[i + k] == whole[k] by {
        assert(buf.subrange(i, i + ell)[k] == whole[k]);
    }
    if s.len() == 0 {
        assert(buf[i + 0] == whole[0]);
        assert(buf[i] == 34);
    } else {
        let c = s[0];
        let e = encode_char(c);
        let rest = s.drop_first();
        assert(encode_chars(s) == e + encode_chars(rest));
        let j = i + e.len();
        assert(buf.subrange(j, j + encode_chars(rest).len() + 1) =~= encode_chars(rest) + seq![
            34u8,
        ]) by {
            assert forall|k: int| 0 <= k < encode_chars(rest).len() + 1 implies buf[j + k] == (
            encode_chars(rest) + seq![34u8])[k] by {
                assert(buf[i + (e.len() + k)] == whole[e.len() + k]);
            }
        }
        lemma_parse_chars_encode(rest, buf, j);
        assert(buf.subrange(i, i + e.len()) =~= e) by {
            assert forall|k: int| 0 <= k < e.len() implies buf[i + k] == e[k] by {
                assert(whole[k] == (e + encode_chars(rest))[k]);
            }
        }
        lemma_parse_char_step(c, buf, i, rest, j + encode_chars(rest).len() + 1);
        assert(seq![c] + rest =~= s);
    }
}

/// Parsing a quoted string the encoder produced recovers it exactly.
proof fn lemma_parse_string_encode(s: Seq<char>, buf: Seq<u8>, i: int)
    requires
        0 <= i,
        i + encode_string(s).len() <= buf.len(),
        buf.subrange(i, i + encode_string(s).len()) == encode_string(s),
    ensures
        parse_string_at(buf, i) == Some((s, i + encode_string(s).len())),
{
    let q = encode_string(s);
    assert forall|k: int| 0 <= k < q.len() implies buf[i + k] == q[k] by {
        assert(buf.subrange(i, i + q.len())[k] == q[k]);
    }
    assert(buf[i + 0] == q[0]);
    assert(buf[i] == 34);
    assert(buf.subrange(i + 1, i + 1 + encode_chars(s).len() + 1) =~= encode_chars(s) + seq![
        34u8,
    ]) by {
        assert forall|k: int| 0 <= k < encode_chars(s).len() + 1 implies buf[i + 1 + k] == (
        encode_chars(s) + seq![34u8])[k] by {
            assert(buf[i + 1 + k] == q[1 + k]);
        }
    }
    lemma_parse_chars_encode(s, buf, i + 1);
}

#[verifier::rlimit(100)]
proof fn lemma_parse_encode_request(uuid: Seq<char>, peer_id: Seq<char>, role: Seq<char>)
    ensures
        parse_payload(encode_payload(MessageView::RelayRequest { uuid, peer_id, role }))
            == Some(MessageView::RelayRequest { uuid, peer_id, role }),
{
    reveal(parse_payload);
    let m = MessageView::RelayRequest { uuid, peer_id, role };
    let s = encode_payload(m);

        let l0 = lit_req_open();
        let q0 = encode_string(uuid);
        let l1 = lit_peer();
        let q1 = encode_string(peer_id);
        let l2 = lit_role();
        let q2 = encode_string(role);
        let l3 = lit_close();
        let o1 = l0.len() as int;
        let o2 = o1 + q0.len();
        let o3 = o2 + l1.len();
        let o4 = o3 + q1.len();
        let o5 = o4 + l2.len();
        let o6 = o5 + q2.len();
        assert(s.subrange(0, o1) =~= l0);
        assert(starts_at(s, 0, l0));
        assert(s.subrange(o1, o1 + q0.len()) =~= q0);
        lemma_parse_string_encode(uuid, s, o1);
        assert(s.subrange(o2, o2 + l1.len()) =~= l1);
        assert(starts_at(s, o2, l1));
        assert(s.subrange(o3, o3 + q1.len()) =~= q1);
        lemma_parse_string_encode(peer_id, s, o3);
        assert(s.subrange(o4, o4 + l2.len()) =~= l2);
        assert(starts_at(s, o4, l2));
        assert(s.subrange(o5, o5 + q2.len()) =~= q2);
        lemma_parse_string_encode(role, s, o5);
        assert(s.subrange(o6, o6 + l3.len()) =~= l3);
        assert(starts_at(s, o6, l3));
        assert(o6 + l3.len() == s.len());
}

#[verifier::rlimit(100)]
proof fn lemma_parse_encode_response(success: bool, message: Option<Seq<char>>)
    ensures
        parse_payload(encode_payload(MessageView::RelayResponse { success, message }))
            == Some(MessageView::RelayResponse { success, message }),
{
    reveal(parse_payload);
    let m = MessageView::RelayResponse { success, message };
    let s = encode_payload(m);

        let l0 = lit_resp_open();
        let lb = if success {
            lit_true()
        } else {
            lit_false()
        };
        let l1 = lit_msg();
        let qm = match message {
            Some(t) => encode_string(t),
            None => lit_null(),
        };
        let l3 = lit_close();
        let o1 = l0.len() as int;
        let o2 = o1 + lb.len();
        let o3 = o2 + l1.len();
        let o4 = o3 + qm.len();
        assert(!starts_at(s, 0, lit_req_open())) by {
            if starts_at(s, 0, lit_req_open()) {
                assert(s.subrange(0, lit_req_open().len() as int)[9] == lit_req_open()[9]);
                assert(s[9] == l0[9]);
            }
        }
        assert(s.subrange(0, o1) =~= l0);
        assert(starts_at(s, 0, l0));
        assert(s.subrange(o1, o1 + lb.len()) =~= lb);
        assert(starts_at(s, o1, lb));
        if success {
            assert(!starts_at(s, o1, lit_false())) by {
                if starts_at(s, o1, lit_false()) {
                    assert(s.subrange(o1, o1 + lit_false().len())[0] == lit_false()[0]);
                    assert(s[o1] == lb[0]);
                }
            }
        } else {
            assert(!starts_at(s, o1, lit_true())) by {
                if starts_at(s, o1, lit_true()) {
                    assert(s.subrange(o1, o1 + lit_true().len())[0] == lit_true()[0]);
                    assert(s[o1] == lb[0]);
                }
            }
        }
        assert(s.subrange(o2, o2 + l1.len()) =~= l1);
        assert(starts_at(s, o2, l1));
        match message {
            None => {
                assert(s.subrange(o3, o3 + qm.len()) =~= qm);
                assert(starts_at(s, o3, lit_null()));
                assert(s.subrange(o4, o4 + l3.len()) =~= l3);
                assert(starts_at(s, o4, l3));
                assert(o4 + l3.len() == s.len());
            },
            Some(t) => {
                assert(!starts_at(s, o3, lit_null())) by {
                    if starts_at(s, o3, lit_null()) {
                        assert(s.subrange(o3, o3 + lit_null().len())[0] == lit_null()[0]);
                        assert(s[o3] == qm[0]);
                    }
                }
                assert(s.subrange(o3, o3 + qm.len()) =~= qm);
                lemma_parse_string_encode(t, s, o3);
                assert(s.subrange(o4, o4 + l3.len()) =~= l3);
                assert(starts_at(s, o4, l3));
                assert(o4 + l3.len() == s.len());
            },
        }
    
}

/// Law: parsing the payload the encoder produced for any message yields
/// that message back.
pub proof fn lemma_parse_encode_payload(m: MessageView)
    ensures
        parse_payload(encode_payload(m)) == Some(m),
{
    match m {
        MessageView::RelayRequest { uuid, peer_id, role } => {
            lemma_parse_encode_request(uuid, peer_id, role);
        },
        MessageView::RelayResponse { success, message } => {
            lemma_parse_encode_response(success, message);
        },
    }
}

/// Law: decoding a frame the encoder produced yields the original message,
/// whenever the payload fits the maximum frame size (the only case in which
/// the encoder produces a frame at all).
pub proof fn lemma_frame_round_trip(m: MessageView)
    requires
        encode_payload(m).len() <= MAX_MESSAGE_SIZE,
    ensures
        decode_frame(encode_frame(m)) == Ok::<MessageView, FormatError>(m),
{
    let p = encode_payload(m);
    let n = p.len() as int;
    let f = encode_frame(m);
    let h = be32_bytes(n);
    assert(f[0] == h[0] && f[1] == h[1] && f[2] == h[2] && f[3] == h[3]);
    let nu = n as u64;
    assert(nu / 0x1000000 % 0x100 * 0x1000000 + nu / 0x10000 % 0x100 * 0x10000 + nu / 0x100 % 0x100
        * 0x100 + nu % 0x100 == nu) by (bit_vector)
        requires
            nu < 0x100000000,
    ;
    assert(be32(f) == n);
    assert(f.subrange(4, 4 + n) =~= p);
    lemma_parse_encode_payload(m);
}

} // verus!
