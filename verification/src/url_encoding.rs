//! Compact, URL-safe codecs for a gift message (giver and receiver names)
//! and for the application state (names, forbidden pairs, history).
//!
//! A payload is a version byte followed by an ultra-compact binary body; it
//! is compressed as a raw DEFLATE stream and written as lowercase unpadded
//! base32.
use crate::transport::{
    ascii_lower, ascii_upper, base32_bytes, base32_decode, base32_encode, base32_text, deflate,
    deflate_outcome, inflate, inflate_outcome, lowercase, string_from_utf8,
    to_lowercase, to_uppercase, uppercase, utf8_error_text, StreamFailure, is_lower_base32_char,
    lemma_base32_case_roundtrip, lemma_ascii_upper_idempotent, lemma_base32_roundtrip,
};
use vstd::prelude::*;
use vstd::utf8::*;

verus! {

/// Version byte at the start of each payload: major version in the high
/// four bits, minor version in the low four bits (1.0).
pub const VERSION_1_0: u8 = 0x10;

/// `prefix` followed by `detail`.
fn joined(prefix: &str, detail: &str) -> (res: String)
    ensures
        res@ == prefix@ + detail@,
{
    let mut s = String::from_str(prefix);
    s.append(detail);
    s
}

/// The decimal digit character of `d`.
pub open spec fn digit_char(d: nat) -> char {
    ((d + 48) as u32) as char
}

/// The decimal writing of `n`, without leading zeros.
pub open spec fn decimal(n: nat) -> Seq<char>
    decreases n,
{
    if n < 10 {
        seq![digit_char(n)]
    } else {
        decimal(n / 10) + seq![digit_char(n % 10)]
    }
}

fn digit_text(d: u8) -> (res: &'static str)
    requires
        d < 10,
    ensures
        res@ == seq![digit_char(d as nat)],
{
    proof {
        reveal_strlit("0");
        reveal_strlit("1");
        reveal_strlit("2");
        reveal_strlit("3");
        reveal_strlit("4");
        reveal_strlit("5");
        reveal_strlit("6");
        reveal_strlit("7");
        reveal_strlit("8");
        reveal_strlit("9");
    }
    match d {
        0 => "0",
        1 => "1",
        2 => "2",
        3 => "3",
        4 => "4",
        5 => "5",
        6 => "6",
        7 => "7",
        8 => "8",
        _ => "9",
    }
}

/// Writes `n` in decimal.
fn decimal_text(n: u8) -> (res: String)
    ensures
        res@ == decimal(n as nat),
{
    let mut s = String::new();
    if n >= 100 {
        s.append(digit_text(n / 100));
        s.append(digit_text((n / 10) % 10));
    } else if n >= 10 {
        s.append(digit_text(n / 10));
    }
    s.append(digit_text(n % 10));
    proof {
        let m = n as nat;
        if m >= 100 {
            assert(decimal(m / 10) == decimal(m / 100) + seq![digit_char((m / 10) % 10)]);
            assert(decimal(m / 100) == seq![digit_char(m / 100)]);
        } else if m >= 10 {
            assert(decimal(m / 10) == seq![digit_char(m / 10)]);
        }
    }
    s
}

/// The length byte written for a field of `n` bytes: `n` truncated to its
/// low eight bits.
pub open spec fn len_byte(n: nat) -> u8 {
    (n % 256) as u8
}

/// A name as written in a payload: its UTF-8 length byte, then its bytes.
pub open spec fn name_field(name: Seq<char>) -> Seq<u8> {
    seq![len_byte(encode_utf8(name).len())] + encode_utf8(name)
}

/// The ultra-compact body of a message: the giver's field, then the
/// receiver's.
pub open spec fn message_bytes(giver: Seq<char>, receiver: Seq<char>) -> Seq<u8> {
    name_field(giver) + name_field(receiver)
}

/// The text of the error for an invalid UTF-8 name.
pub open spec fn utf8_failure(what: Seq<char>, bytes: Seq<u8>) -> Seq<char> {
    what + utf8_error_text(bytes)
}

/// Reading a message body: two length-prefixed UTF-8 names. Bytes after the
/// receiver's name are ignored.
pub open spec fn parse_message(data: Seq<u8>) -> Result<(Seq<char>, Seq<char>), Seq<char>> {
    if data.len() == 0 {
        Err("Invalid data: empty"@)
    } else {
        let gl = data[0] as int;
        if 1 + gl > data.len() {
            Err("Invalid data: giver name length exceeds data"@)
        } else {
            let gb = data.subrange(1, 1 + gl);
            if !valid_utf8(gb) {
                Err(utf8_failure("Invalid UTF-8 in giver name: "@, gb))
            } else {
                let p = 1 + gl;
                if p >= data.len() {
                    Err("Invalid data: unexpected end before receiver name"@)
                } else {
                    let rl = data[p] as int;
                    if p + 1 + rl > data.len() {
                        Err("Invalid data: receiver name length exceeds data"@)
                    } else {
                        let rb = data.subrange(p + 1, p + 1 + rl);
                        if !valid_utf8(rb) {
                            Err(utf8_failure("Invalid UTF-8 in receiver name: "@, rb))
                        } else {
                            Ok((decode_utf8(gb), decode_utf8(rb)))
                        }
                    }
                }
            }
        }
    }
}

/// The low eight bits of `n`.
fn low_byte(n: usize) -> (b: u8)
    ensures
        b == len_byte(n as nat),
{
    (n % 256) as u8
}

/// Appends the field of `name` to `data`.
fn push_name(data: &mut Vec<u8>, name: &str)
    ensures
        final(data)@ == old(data)@ + name_field(name@),
{
    let bytes = name.as_bytes();
    data.push(low_byte(bytes.len()));
    let ghost mid = data@;
    let mut i: usize = 0;
    while i < bytes.len()
        invariant
            i <= bytes@.len(),
            bytes@ == encode_utf8(name@),
            data@ == mid + bytes@.subrange(0, i as int),
        decreases bytes@.len() - i,
    {
        data.push(bytes[i]);
        assert(bytes@.subrange(0, i + 1) == bytes@.subrange(0, i as int).push(bytes@[i as int]));
        i += 1;
    }
    assert(bytes@.subrange(0, bytes@.len() as int) == bytes@);
}

/// Copies `data[start..end]`.
fn copy_range(data: &[u8], start: usize, end: usize) -> (res: Vec<u8>)
    requires
        start <= end <= data@.len(),
    ensures
        res@ == data@.subrange(start as int, end as int),
{
    let mut res = Vec::new();
    let mut i = start;
    while i < end
        invariant
            start <= i <= end <= data@.len(),
            res@ == data@.subrange(start as int, i as int),
        decreases end - i,
    {
        res.push(data[i]);
        assert(data@.subrange(start as int, i + 1) == data@.subrange(start as int, i as int).push(
            data@[i as int],
        ));
        i += 1;
    }
    res
}

/// Compact message format V1: giver and receiver names.
#[derive(Debug)]
pub struct CompactMessageV1 {
    pub g: String,
    pub r: String,
}

/// A read message body over plain values.
pub open spec fn message_read(
    res: Result<CompactMessageV1, String>,
) -> Result<(Seq<char>, Seq<char>), Seq<char>> {
    match res {
        Ok(m) => Ok((m.g@, m.r@)),
        Err(e) => Err(e@),
    }
}

impl CompactMessageV1 {
    /// The ultra-compact body: `[len(g), g bytes.., len(r), r bytes..]`,
    /// each length truncated to one byte.
    pub fn serialize_ultra_compact(&self) -> (data: Vec<u8>)
        ensures
            data@ == message_bytes(self.g@, self.r@),
    {
        let mut data = Vec::new();
        push_name(&mut data, self.g.as_str());
        push_name(&mut data, self.r.as_str());
        data
    }

    /// Reads an ultra-compact body.
    pub fn deserialize_ultra_compact(data: &[u8]) -> (res: Result<Self, String>)
        ensures
            message_read(res) == parse_message(data@),
    {
        let mut pos: usize = 0;
        if pos >= data.len() {
            return Err("Invalid data: empty".to_string());
        }
        let giver_len = data[pos] as usize;
        pos += 1;
        if giver_len > data.len() - pos {
            return Err("Invalid data: giver name length exceeds data".to_string());
        }
        let giver_bytes = copy_range(data, pos, pos + giver_len);
        let giver = match string_from_utf8(giver_bytes.as_slice()) {
            Ok(s) => s,
            Err(e) => {
                return Err(joined("Invalid UTF-8 in giver name: ", e.as_str()));
            },
        };
        pos += giver_len;
        if pos >= data.len() {
            return Err("Invalid data: unexpected end before receiver name".to_string());
        }
        let receiver_len = data[pos] as usize;
        pos += 1;
        if receiver_len > data.len() - pos {
            return Err("Invalid data: receiver name length exceeds data".to_string());
        }
        let receiver_bytes = copy_range(data, pos, pos + receiver_len);
        let receiver = match string_from_utf8(receiver_bytes.as_slice()) {
            Ok(s) => s,
            Err(e) => {
                return Err(joined("Invalid UTF-8 in receiver name: ", e.as_str()));
            },
        };
        Ok(CompactMessageV1 { g: giver, r: receiver })
    }
}

/// A message body reads back as the names it was written from, whatever
/// follows it, when each name's UTF-8 form is shorter than 256 bytes.
pub proof fn lemma_message_body_roundtrip(giver: Seq<char>, receiver: Seq<char>, rest: Seq<u8>)
    requires
        encode_utf8(giver).len() < 256,
        encode_utf8(receiver).len() < 256,
    ensures
        parse_message(message_bytes(giver, receiver) + rest) == Ok::<
            (Seq<char>, Seq<char>),
            Seq<char>,
        >((giver, receiver)),
{
    broadcast use encode_utf8_valid_utf8, encode_utf8_decode_utf8;

    let gb = encode_utf8(giver);
    let rb = encode_utf8(receiver);
    let data = message_bytes(giver, receiver) + rest;
    let gl = gb.len() as int;
    let rl = rb.len() as int;
    assert(data[0] == len_byte(gb.len()));
    assert(data[0] as int == gl);
    assert(data.subrange(1, 1 + gl) =~= gb);
    assert(data[1 + gl] as int == rl);
    assert(data.subrange(2 + gl, 2 + gl + rl) =~= rb);
}

/// A payload: the version byte, then the body.
pub open spec fn versioned(body: Seq<u8>) -> Seq<u8> {
    seq![VERSION_1_0] + body
}

/// The shared text of a payload: its raw DEFLATE stream as lowercase
/// unpadded base32, or the compressor's failure.
pub open spec fn packed_text(payload: Seq<u8>) -> Result<Seq<char>, Seq<char>> {
    match deflate_outcome(payload) {
        Ok(c) => Ok(ascii_lower(base32_text(c))),
        Err((at_finish, t)) => if at_finish {
            Err("Compression finish error: "@ + t)
        } else {
            Err("Compression error: "@ + t)
        },
    }
}

/// The uppercase form used when reading shared text.
pub open spec fn upper_text(s: Seq<char>) -> Seq<char> {
    if is_ascii_chars(s) {
        ascii_upper(s)
    } else {
        uppercase(s)
    }
}

/// Reading shared text back into a payload: `None` when the text is not
/// base32, else the decompressed bytes or the decompressor's failure.
pub open spec fn unpacked(encoded: Seq<char>) -> Option<Result<Seq<u8>, Seq<char>>> {
    match base32_bytes(upper_text(encoded)) {
        None => None,
        Some(c) => Some(
            match inflate_outcome(c) {
                Ok(b) => Ok(b),
                Err((at_finish, t)) => if at_finish {
                    Err("Decompression finish error: "@ + t)
                } else {
                    Err("Decompression error: "@ + t)
                },
            },
        ),
    }
}

/// The error for a payload whose version byte is `v`.
pub open spec fn version_error(v: u8) -> Seq<char> {
    "Unsupported version: "@ + decimal((v / 16) as nat) + "."@ + decimal((v % 16) as nat)
}

/// What encoding a message from `giver` to `receiver` gives.
pub open spec fn spec_encode_message(giver: Seq<char>, receiver: Seq<char>) -> Result<
    Seq<char>,
    Seq<char>,
> {
    packed_text(versioned(message_bytes(giver, receiver)))
}

/// What reading a decompressed message payload gives: the version byte
/// must be that of this format, and the body must hold the two names.
pub open spec fn spec_read_message(payload: Seq<u8>) -> Result<(Seq<char>, Seq<char>), Seq<char>> {
    if payload.len() == 0 {
        Err("Empty message"@)
    } else if payload[0] != VERSION_1_0 {
        Err(version_error(payload[0]))
    } else {
        match parse_message(payload.drop_first()) {
            Ok(m) => Ok(m),
            Err(e) => Err("Deserialization error: "@ + e),
        }
    }
}

/// What decoding the text `encoded` as a message gives.
pub open spec fn spec_decode_message(encoded: Seq<char>) -> Result<
    (Seq<char>, Seq<char>),
    Seq<char>,
> {
    match unpacked(encoded) {
        None => Err("Base32 decode error for: '"@ + encoded + "'"@),
        Some(Err(e)) => Err(e),
        Some(Ok(b)) => spec_read_message(b),
    }
}

/// Text made only of lowercase base32 characters, safe in a URL.
pub open spec fn is_url_text(s: Seq<char>) -> bool {
    forall|i: int| 0 <= i < s.len() ==> is_lower_base32_char(#[trigger] s[i])
}

/// A text result over plain values.
pub open spec fn text_result(res: Result<String, String>) -> Result<Seq<char>, Seq<char>> {
    match res {
        Ok(t) => Ok(t@),
        Err(e) => Err(e@),
    }
}

/// Compresses a payload and writes it as lowercase base32.
fn pack(payload: &Vec<u8>) -> (res: Result<String, String>)
    ensures
        text_result(res) == packed_text(payload@),
        res is Ok,
        res matches Ok(t) ==> is_url_text(t@) && is_ascii_chars(t@) && ascii_upper(t@)
            == base32_text(deflate_outcome(payload@)->Ok_0) && base32_bytes(ascii_upper(t@))
            == Some(deflate_outcome(payload@)->Ok_0) && inflate_outcome(
            deflate_outcome(payload@)->Ok_0,
        ) == Ok::<Seq<u8>, (bool, Seq<char>)>(payload@),
{
    let compressed = match deflate(payload.as_slice()) {
        Ok(c) => c,
        Err(StreamFailure::Write(t)) => {
            return Err(joined("Compression error: ", t.as_str()));
        },
        Err(StreamFailure::Finish(t)) => {
            return Err(joined("Compression finish error: ", t.as_str()));
        },
    };
    let text = base32_encode(compressed.as_slice());
    proof {
        lemma_base32_roundtrip(compressed@);
        lemma_base32_case_roundtrip(text@);
    }
    assert(is_ascii_chars(text@));
    let lowered = to_lowercase(text.as_str());
    Ok(lowered)
}

/// Reads shared text back into a payload.
fn unpack(encoded: &str) -> (res: Option<Result<Vec<u8>, String>>)
    ensures
        match res {
            None => unpacked(encoded@) is None,
            Some(Ok(b)) => unpacked(encoded@) == Some(Ok::<Seq<u8>, Seq<char>>(b@)),
            Some(Err(e)) => unpacked(encoded@) == Some(Err::<Seq<u8>, Seq<char>>(e@)),
        },
{
    let upper = to_uppercase(encoded);
    let compressed = match base32_decode(upper.as_str()) {
        Some(c) => c,
        None => {
            return None;
        },
    };
    match inflate(compressed.as_slice()) {
        Ok(b) => Some(Ok(b)),
        Err(StreamFailure::Write(t)) => Some(Err(joined("Decompression error: ", t.as_str()))),
        Err(StreamFailure::Finish(t)) => Some(
            Err(joined("Decompression finish error: ", t.as_str())),
        ),
    }
}

/// The error for an unsupported version byte.
fn version_error_text(version: u8) -> (res: String)
    ensures
        res@ == version_error(version),
{
    let mut s = String::from_str("Unsupported version: ");
    let major = decimal_text(version / 16);
    let minor = decimal_text(version % 16);
    s.append(major.as_str());
    s.append(".");
    s.append(minor.as_str());
    s
}

/// A gift message read back from its shared text.
#[derive(Debug)]
pub struct DecodedMessage {
    giver: String,
    receiver: String,
}

impl View for DecodedMessage {
    type V = (Seq<char>, Seq<char>);

    closed spec fn view(&self) -> (Seq<char>, Seq<char>) {
        (self.giver@, self.receiver@)
    }
}

impl DecodedMessage {
    /// A message from `giver` to `receiver`.
    pub fn new(giver: String, receiver: String) -> (res: DecodedMessage)
        ensures
            res@ == (giver@, receiver@),
    {
        DecodedMessage { giver, receiver }
    }

    /// The giver's name.
    pub fn giver(&self) -> (res: String)
        ensures
            res@ == self@.0,
    {
        self.giver.clone()
    }

    /// The receiver's name.
    pub fn receiver(&self) -> (res: String)
        ensures
            res@ == self@.1,
    {
        self.receiver.clone()
    }
}

/// A decoded message result over plain values.
pub open spec fn message_result(res: Result<DecodedMessage, String>) -> Result<
    (Seq<char>, Seq<char>),
    Seq<char>,
> {
    match res {
        Ok(m) => Ok(m@),
        Err(e) => Err(e@),
    }
}

/// Encodes a gift message into compact URL-safe text: the version byte and
/// the two length-prefixed names, compressed and written in lowercase
/// base32. It always succeeds, with lowercase base32 text that decodes back
/// to the same names when each name is shorter than 256 bytes in UTF-8.
pub fn encode_message_v2(giver: &str, receiver: &str) -> (res: Result<String, String>)
    ensures
        text_result(res) == spec_encode_message(giver@, receiver@),
        res is Ok,
        res matches Ok(t) ==> is_url_text(t@),
        res matches Ok(t) ==> (encode_utf8(giver@).len() < 256 && encode_utf8(receiver@).len()
            < 256 ==> spec_decode_message(t@) == Ok::<(Seq<char>, Seq<char>), Seq<char>>(
            (giver@, receiver@),
        )),
{
    let message = CompactMessageV1 { g: giver.to_string(), r: receiver.to_string() };
    let mut binary = Vec::new();
    binary.push(VERSION_1_0);
    let body = message.serialize_ultra_compact();
    let mut i: usize = 0;
    while i < body.len()
        invariant
            i <= body@.len(),
            binary@ == seq![VERSION_1_0] + body@.subrange(0, i as int),
        decreases body@.len() - i,
    {
        binary.push(body[i]);
        assert(body@.subrange(0, i + 1) == body@.subrange(0, i as int).push(body@[i as int]));
        i += 1;
    }
    assert(body@.subrange(0, body@.len() as int) == body@);
    let res = pack(&binary);
    proof {
        if res is Ok && encode_utf8(giver@).len() < 256 && encode_utf8(receiver@).len() < 256 {
            let t = res->Ok_0@;
            assert(upper_text(t) == ascii_upper(t));
            lemma_message_body_roundtrip(giver@, receiver@, Seq::empty());
            assert(message_bytes(giver@, receiver@) + Seq::<u8>::empty() == message_bytes(
                giver@,
                receiver@,
            ));
            assert(versioned(message_bytes(giver@, receiver@)).drop_first() == message_bytes(
                giver@,
                receiver@,
            ));
        }
    }
    res
}

/// Decodes compact URL-safe text (upper or lower case) back into the giver's
/// and receiver's names.
pub fn decode_message_v2(encoded: &str) -> (res: Result<DecodedMessage, String>)
    ensures
        message_result(res) == spec_decode_message(encoded@),
{
    let binary = match unpack(encoded) {
        None => {
            let mut e = joined("Base32 decode error for: '", encoded);
            e.append("'");
            return Err(e);
        },
        Some(Err(e)) => {
            return Err(e);
        },
        Some(Ok(b)) => b,
    };
    decode_message_payload(binary.as_slice())
}

/// Reads a decompressed message payload: checks that it is not empty and
/// that its version byte is this format's, then reads the two names.
pub fn decode_message_payload(payload: &[u8]) -> (res: Result<DecodedMessage, String>)
    ensures
        message_result(res) == spec_read_message(payload@),
{
    if payload.len() == 0 {
        return Err("Empty message".to_string());
    }
    let version = payload[0];
    if version != VERSION_1_0 {
        return Err(version_error_text(version));
    }
    let body = vstd::slice::slice_subrange(payload, 1, payload.len());
    assert(body@ == payload@.drop_first());
    match CompactMessageV1::deserialize_ultra_compact(body) {
        Ok(m) => Ok(DecodedMessage { giver: m.g, receiver: m.r }),
        Err(e) => Err(joined("Deserialization error: ", e.as_str())),
    }
}

/// The low eight bits of `x`.
pub open spec fn low_u16(x: u16) -> u8 {
    (x % 256) as u8
}

/// The fields of `names`, one after another.
pub open spec fn names_bytes(names: Seq<Seq<char>>) -> Seq<u8>
    decreases names.len(),
{
    if names.len() == 0 {
        seq![]
    } else {
        names_bytes(names.drop_last()) + name_field(names.last())
    }
}

/// Each forbidden pair as two bytes.
pub open spec fn pairs_bytes(pairs: Seq<(u16, u16)>) -> Seq<u8>
    decreases pairs.len(),
{
    if pairs.len() == 0 {
        seq![]
    } else {
        pairs_bytes(pairs.drop_last()) + seq![low_u16(pairs.last().0), low_u16(pairs.last().1)]
    }
}

/// Each member of a history round as one byte.
pub open spec fn round_bytes(round: Seq<u16>) -> Seq<u8> {
    round.map_values(|x: u16| low_u16(x))
}

/// The history rounds, one after another, with no separator.
pub open spec fn rounds_bytes(rounds: Seq<Seq<u16>>) -> Seq<u8>
    decreases rounds.len(),
{
    if rounds.len() == 0 {
        seq![]
    } else {
        rounds_bytes(rounds.drop_last()) + round_bytes(rounds.last())
    }
}

/// The ultra-compact body of a state: the count of names and the names, the
/// count of forbidden pairs and the pairs, the count of history rounds and
/// the rounds. Counts, lengths and members are truncated to one byte.
pub open spec fn state_bytes(
    names: Seq<Seq<char>>,
    pairs: Seq<(u16, u16)>,
    rounds: Seq<Seq<u16>>,
) -> Seq<u8> {
    seq![len_byte(names.len())] + names_bytes(names) + seq![len_byte(pairs.len())] + pairs_bytes(
        pairs,
    ) + seq![len_byte(rounds.len())] + rounds_bytes(rounds)
}

/// Reading `count` length-prefixed names from `start`: the names and the
/// position after them.
pub open spec fn parse_names(data: Seq<u8>, start: int, count: nat) -> Result<
    (Seq<Seq<char>>, int),
    Seq<char>,
>
    decreases count,
{
    if count == 0 {
        Ok((seq![], start))
    } else {
        match parse_names(data, start, (count - 1) as nat) {
            Err(e) => Err(e),
            Ok((names, p)) => if p >= data.len() {
                Err("Invalid data: unexpected end while reading names"@)
            } else {
                let l = data[p] as int;
                if p + 1 + l > data.len() {
                    Err("Invalid data: name length exceeds data"@)
                } else {
                    let b = data.subrange(p + 1, p + 1 + l);
                    if !valid_utf8(b) {
                        Err(utf8_failure("Invalid UTF-8 in name: "@, b))
                    } else {
                        Ok((names.push(decode_utf8(b)), p + 1 + l))
                    }
                }
            },
        }
    }
}

/// Reading `count` two-byte pairs from `start`.
pub open spec fn parse_pairs(data: Seq<u8>, start: int, count: nat) -> Result<
    (Seq<(u16, u16)>, int),
    Seq<char>,
>
    decreases count,
{
    if count == 0 {
        Ok((seq![], start))
    } else {
        match parse_pairs(data, start, (count - 1) as nat) {
            Err(e) => Err(e),
            Ok((pairs, p)) => if p + 1 >= data.len() {
                Err("Invalid data: unexpected end while reading forbidden pairs"@)
            } else {
                Ok((pairs.push((data[p] as u16, data[p + 1] as u16)), p + 2))
            },
        }
    }
}

/// Reading `count` history rounds of `width` one-byte members from `start`.
pub open spec fn parse_rounds(data: Seq<u8>, start: int, count: nat, width: nat) -> Result<
    (Seq<Seq<u16>>, int),
    Seq<char>,
>
    decreases count,
{
    if count == 0 {
        Ok((seq![], start))
    } else {
        match parse_rounds(data, start, (count - 1) as nat, width) {
            Err(e) => Err(e),
            Ok((rounds, p)) => if p + width > data.len() {
                Err("Invalid data: unexpected end while reading history"@)
            } else {
                Ok(
                    (
                        rounds.push(data.subrange(p, p + width).map_values(|b: u8| b as u16)),
                        p + width,
                    ),
                )
            },
        }
    }
}

/// Reading a state body: names, forbidden pairs, then history rounds with
/// one member per name. Bytes after the history are ignored.
pub open spec fn parse_state(data: Seq<u8>) -> Result<
    (Seq<Seq<char>>, Seq<(u16, u16)>, Seq<Seq<u16>>),
    Seq<char>,
> {
    if data.len() == 0 {
        Err("Invalid data: empty"@)
    } else {
        match parse_names(data, 1, data[0] as nat) {
            Err(e) => Err(e),
            Ok((names, p)) => if p >= data.len() {
                Err("Invalid data: unexpected end before forbidden pairs"@)
            } else {
                match parse_pairs(data, p + 1, data[p] as nat) {
                    Err(e) => Err(e),
                    Ok((pairs, q)) => if q >= data.len() {
                        Err("Invalid data: unexpected end before history"@)
                    } else {
                        match parse_rounds(data, q + 1, data[q] as nat, names.len()) {
                            Err(e) => Err(e),
                            Ok((rounds, _)) => Ok((names, pairs, rounds)),
                        }
                    },
                }
            },
        }
    }
}

/// Compact state format V1: names, forbidden pairs and history rounds.
#[derive(Debug)]
pub struct CompactStateV1 {
    pub n: Vec<String>,
    pub f: Vec<(u16, u16)>,
    pub h: Vec<Vec<u16>>,
}

/// The names of a state as texts.
pub open spec fn names_view(names: Seq<String>) -> Seq<Seq<char>> {
    names.map_values(|s: String| s@)
}

/// The history of a state as sequences.
pub open spec fn rounds_view(rounds: Seq<Vec<u16>>) -> Seq<Seq<u16>> {
    rounds.map_values(|r: Vec<u16>| r@)
}

/// A read state body over plain values.
pub open spec fn state_read(res: Result<CompactStateV1, String>) -> Result<
    (Seq<Seq<char>>, Seq<(u16, u16)>, Seq<Seq<u16>>),
    Seq<char>,
> {
    match res {
        Ok(st) => Ok((names_view(st.n@), st.f@, rounds_view(st.h@))),
        Err(e) => Err(e@),
    }
}

impl CompactStateV1 {
    /// The ultra-compact body of this state (see `state_bytes`).
    pub fn serialize_ultra_compact(&self) -> (data: Vec<u8>)
        ensures
            data@ == state_bytes(names_view(self.n@), self.f@, rounds_view(self.h@)),
    {
        let mut data = Vec::new();
        data.push(low_byte(self.n.len()));
        let ghost names = names_view(self.n@);
        let mut i: usize = 0;
        while i < self.n.len()
            invariant
                i <= self.n@.len(),
                names == names_view(self.n@),
                data@ == seq![len_byte(names.len())] + names_bytes(names.take(i as int)),
            decreases self.n@.len() - i,
        {
            push_name(&mut data, self.n[i].as_str());
            assert(names.take(i + 1).drop_last() == names.take(i as int));
            i += 1;
        }
        assert(names.take(names.len() as int) == names);
        let ghost after_names = data@;
        data.push(low_byte(self.f.len()));
        let mut k: usize = 0;
        while k < self.f.len()
            invariant
                k <= self.f@.len(),
                data@ == after_names + seq![len_byte(self.f@.len())] + pairs_bytes(
                    self.f@.take(k as int),
                ),
            decreases self.f@.len() - k,
        {
            let (a, b) = self.f[k];
            data.push((a % 256) as u8);
            data.push((b % 256) as u8);
            assert(self.f@.take(k + 1).drop_last() == self.f@.take(k as int));
            k += 1;
        }
        assert(self.f@.take(self.f@.len() as int) == self.f@);
        let ghost after_pairs = data@;
        data.push(low_byte(self.h.len()));
        let ghost rounds = rounds_view(self.h@);
        let mut r: usize = 0;
        while r < self.h.len()
            invariant
                r <= self.h@.len(),
                rounds == rounds_view(self.h@),
                data@ == after_pairs + seq![len_byte(rounds.len())] + rounds_bytes(
                    rounds.take(r as int),
                ),
            decreases self.h@.len() - r,
        {
            let round = &self.h[r];
            let ghost before = data@;
            let mut j: usize = 0;
            while j < round.len()
                invariant
                    j <= round@.len(),
                    data@ == before + round_bytes(round@.take(j as int)),
                decreases round@.len() - j,
            {
                data.push((round[j] % 256) as u8);
                assert(round_bytes(round@.take(j + 1)) == round_bytes(round@.take(j as int)).push(
                    low_u16(round@[j as int]),
                ));
                j += 1;
            }
            assert(round@.take(round@.len() as int) == round@);
            assert(rounds.take(r + 1).drop_last() == rounds.take(r as int));
            r += 1;
        }
        assert(rounds.take(rounds.len() as int) == rounds);
        data
    }
}

impl CompactStateV1 {
    /// Reads an ultra-compact state body; each history round has one member
    /// per name.
    pub fn deserialize_ultra_compact(data: &[u8]) -> (res: Result<Self, String>)
        ensures
            state_read(res) == parse_state(data@),
    {
        let mut pos: usize = 0;
        if pos >= data.len() {
            return Err("Invalid data: empty".to_string());
        }
        let name_count = data[pos] as usize;
        pos += 1;
        let mut names: Vec<String> = Vec::new();
        let mut i: usize = 0;
        assert(names_view(names@) =~= Seq::<Seq<char>>::empty());
        while i < name_count
            invariant
                i <= name_count,
                name_count == data@[0] as nat,
                data@.len() > 0,
                pos <= data@.len(),
                parse_names(data@, 1, i as nat) == Ok::<(Seq<Seq<char>>, int), Seq<char>>(
                    (names_view(names@), pos as int),
                ),
            decreases name_count - i,
        {
            if pos >= data.len() {
                proof {
                    lemma_parse_names_err_stays(data@, (i + 1) as nat, name_count as nat);
                }
                return Err("Invalid data: unexpected end while reading names".to_string());
            }
            let name_len = data[pos] as usize;
            pos += 1;
            if name_len > data.len() - pos {
                proof {
                    lemma_parse_names_err_stays(data@, (i + 1) as nat, name_count as nat);
                }
                return Err("Invalid data: name length exceeds data".to_string());
            }
            let bytes = copy_range(data, pos, pos + name_len);
            let name = match string_from_utf8(bytes.as_slice()) {
                Ok(s) => s,
                Err(e) => {
                    proof {
                        lemma_parse_names_err_stays(data@, (i + 1) as nat, name_count as nat);
                    }
                    return Err(joined("Invalid UTF-8 in name: ", e.as_str()));
                },
            };
            let ghost old_names = names@;
            pos += name_len;
            names.push(name);
            assert(names_view(names@) =~= names_view(old_names).push(name@));
            i += 1;
        }
        let names_end = pos;
        if pos >= data.len() {
            return Err("Invalid data: unexpected end before forbidden pairs".to_string());
        }
        let pair_count = data[pos] as usize;
        pos += 1;
        let mut pairs: Vec<(u16, u16)> = Vec::new();
        let mut k: usize = 0;
        assert(pairs@ =~= Seq::<(u16, u16)>::empty());
        while k < pair_count
            invariant
                k <= pair_count,
                names_end < data@.len(),
                data@.len() > 0,
                parse_names(data@, 1, data@[0] as nat) == Ok::<(Seq<Seq<char>>, int), Seq<char>>(
                    (names_view(names@), names_end as int),
                ),
                pair_count == data@[names_end as int] as nat,
                pos <= data@.len(),
                parse_pairs(data@, names_end + 1, k as nat) == Ok::<
                    (Seq<(u16, u16)>, int),
                    Seq<char>,
                >((pairs@, pos as int)),
            decreases pair_count - k,
        {
            if data.len() - pos <= 1 {
                proof {
                    lemma_parse_pairs_err_stays(
                        data@,
                        names_end + 1,
                        (k + 1) as nat,
                        pair_count as nat,
                    );
                }
                return Err("Invalid data: unexpected end while reading forbidden pairs".to_string());
            }
            let a = data[pos] as u16;
            let b = data[pos + 1] as u16;
            pos += 2;
            pairs.push((a, b));
            k += 1;
        }
        let pairs_end = pos;
        if pos >= data.len() {
            return Err("Invalid data: unexpected end before history".to_string());
        }
        let round_count = data[pos] as usize;
        pos += 1;
        let width = names.len();
        let mut history: Vec<Vec<u16>> = Vec::new();
        let mut r: usize = 0;
        assert(rounds_view(history@) =~= Seq::<Seq<u16>>::empty());
        while r < round_count
            invariant
                r <= round_count,
                pairs_end < data@.len(),
                names_end < data@.len(),
                data@.len() > 0,
                parse_names(data@, 1, data@[0] as nat) == Ok::<(Seq<Seq<char>>, int), Seq<char>>(
                    (names_view(names@), names_end as int),
                ),
                parse_pairs(data@, names_end + 1, data@[names_end as int] as nat) == Ok::<
                    (Seq<(u16, u16)>, int),
                    Seq<char>,
                >((pairs@, pairs_end as int)),
                round_count == data@[pairs_end as int] as nat,
                width == names@.len(),
                pos <= data@.len(),
                parse_rounds(data@, pairs_end + 1, r as nat, width as nat) == Ok::<
                    (Seq<Seq<u16>>, int),
                    Seq<char>,
                >((rounds_view(history@), pos as int)),
            decreases round_count - r,
        {
            if width > data.len() - pos {
                proof {
                    lemma_parse_rounds_err_stays(
                        data@,
                        pairs_end + 1,
                        (r + 1) as nat,
                        round_count as nat,
                        width as nat,
                    );
                }
                return Err("Invalid data: unexpected end while reading history".to_string());
            }
            let mut round: Vec<u16> = Vec::new();
            let round_start = pos;
            let data_len = data.len();
            let mut j: usize = 0;
            while j < width
                invariant
                    j <= width,
                    data_len == data@.len(),
                    round_start + width <= data@.len(),
                    round@ == data@.subrange(round_start as int, round_start + j).map_values(
                        |b: u8| b as u16,
                    ),
                decreases width - j,
            {
                round.push(data[round_start + j] as u16);
                assert(data@.subrange(round_start as int, round_start + j + 1).map_values(
                    |b: u8| b as u16,
                ) =~= data@.subrange(round_start as int, round_start + j).map_values(
                    |b: u8| b as u16,
                ).push(data@[round_start + j] as u16));
                j += 1;
            }
            pos += width;
            let ghost old_history = history@;
            history.push(round);
            assert(rounds_view(history@) =~= rounds_view(old_history).push(round@));
            r += 1;
        }
        Ok(CompactStateV1 { n: names, f: pairs, h: history })
    }
}

/// Once reading names fails, reading more of them fails with the same error.
proof fn lemma_parse_names_err_stays(data: Seq<u8>, k: nat, count: nat)
    requires
        k <= count,
        parse_names(data, 1, k) is Err,
    ensures
        parse_names(data, 1, count) == parse_names(data, 1, k),
    decreases count - k,
{
    if k < count {
        lemma_parse_names_err_stays(data, k, (count - 1) as nat);
    }
}

/// Once reading pairs fails, reading more of them fails with the same error.
proof fn lemma_parse_pairs_err_stays(data: Seq<u8>, start: int, k: nat, count: nat)
    requires
        k <= count,
        parse_pairs(data, start, k) is Err,
    ensures
        parse_pairs(data, start, count) == parse_pairs(data, start, k),
    decreases count - k,
{
    if k < count {
        lemma_parse_pairs_err_stays(data, start, k, (count - 1) as nat);
    }
}

/// Once reading rounds fails, reading more of them fails with the same
/// error.
proof fn lemma_parse_rounds_err_stays(data: Seq<u8>, start: int, k: nat, count: nat, width: nat)
    requires
        k <= count,
        parse_rounds(data, start, k, width) is Err,
    ensures
        parse_rounds(data, start, count, width) == parse_rounds(data, start, k, width),
    decreases count - k,
{
    if k < count {
        lemma_parse_rounds_err_stays(data, start, k, (count - 1) as nat, width);
    }
}

/// `data` holds `part` starting at `start`.
pub open spec fn holds_at(data: Seq<u8>, start: int, part: Seq<u8>) -> bool {
    0 <= start && start + part.len() <= data.len() && data.subrange(start, start + part.len())
        == part
}

proof fn lemma_holds_at_split(data: Seq<u8>, start: int, a: Seq<u8>, b: Seq<u8>)
    requires
        holds_at(data, start, a + b),
    ensures
        holds_at(data, start, a),
        holds_at(data, start + a.len(), b),
{
    let whole = data.subrange(start, start + (a + b).len());
    assert(whole == a + b);
    assert(data.subrange(start, start + a.len()) =~= whole.subrange(0, a.len() as int));
    assert(whole.subrange(0, a.len() as int) =~= a);
    assert(data.subrange(start + a.len(), start + a.len() + b.len()) =~= whole.subrange(
        a.len() as int,
        whole.len() as int,
    ));
    assert(whole.subrange(a.len() as int, whole.len() as int) =~= b);
}

/// Names written one after another read back, when each name is shorter
/// than 256 bytes in UTF-8.
proof fn lemma_names_roundtrip(data: Seq<u8>, start: int, names: Seq<Seq<char>>)
    requires
        holds_at(data, start, names_bytes(names)),
        forall|i: int| 0 <= i < names.len() ==> encode_utf8(#[trigger] names[i]).len() < 256,
    ensures
        parse_names(data, start, names.len()) == Ok::<(Seq<Seq<char>>, int), Seq<char>>(
            (names, start + names_bytes(names).len()),
        ),
    decreases names.len(),
{
    broadcast use encode_utf8_valid_utf8, encode_utf8_decode_utf8;

    if names.len() > 0 {
        let init = names.drop_last();
        let last = names.last();
        lemma_holds_at_split(data, start, names_bytes(init), name_field(last));
        assert forall|i: int| 0 <= i < init.len() implies encode_utf8(#[trigger] init[i]).len()
            < 256 by {
            assert(init[i] == names[i]);
        }
        lemma_names_roundtrip(data, start, init);
        let p = start + names_bytes(init).len();
        let b = encode_utf8(last);
        assert(encode_utf8(names[names.len() - 1]).len() < 256);
        lemma_holds_at_split(data, p, seq![len_byte(b.len())], b);
        assert(data[p] == (seq![len_byte(b.len())] + b)[0]);
        assert(data.subrange(p, p + 1)[0] == data[p]);
        assert(data[p] as int == b.len());
        assert(holds_at(data, p + 1, b));
        assert(data.subrange(p + 1, p + 1 + b.len()) == b);
        assert(valid_utf8(b));
        assert(decode_utf8(b) == last);
        assert(names_bytes(names).len() == names_bytes(init).len() + 1 + b.len());
        assert(init.push(last) =~= names);
        assert(parse_names(data, start, init.len()) == Ok::<(Seq<Seq<char>>, int), Seq<char>>(
            (init, p)));
        assert(((names.len() - 1) as nat) == init.len());
    } else {
        assert(names =~= Seq::<Seq<char>>::empty());
    }
}

/// Pairs written one after another read back, when every member is below
/// 256.
proof fn lemma_pairs_roundtrip(data: Seq<u8>, start: int, pairs: Seq<(u16, u16)>)
    requires
        holds_at(data, start, pairs_bytes(pairs)),
        forall|i: int| 0 <= i < pairs.len() ==> (#[trigger] pairs[i]).0 < 256 && pairs[i].1 < 256,
    ensures
        pairs_bytes(pairs).len() == 2 * pairs.len(),
        parse_pairs(data, start, pairs.len()) == Ok::<(Seq<(u16, u16)>, int), Seq<char>>(
            (pairs, start + 2 * pairs.len()),
        ),
    decreases pairs.len(),
{
    if pairs.len() > 0 {
        let init = pairs.drop_last();
        let last = pairs.last();
        let tail = seq![low_u16(last.0), low_u16(last.1)];
        lemma_holds_at_split(data, start, pairs_bytes(init), tail);
        assert forall|i: int| 0 <= i < init.len() implies (#[trigger] init[i]).0 < 256
            && init[i].1 < 256 by {
            assert(init[i] == pairs[i]);
        }
        lemma_pairs_roundtrip(data, start, init);
        let p = start + 2 * init.len();
        assert(pairs[pairs.len() - 1].0 < 256 && pairs[pairs.len() - 1].1 < 256);
        assert(data.subrange(p, p + 2) == tail);
        assert(data[p] == tail[0]);
        assert(data[p + 1] == tail[1]);
        assert(data[p] as u16 == last.0);
        assert(data[p + 1] as u16 == last.1);
        assert(init.push(last) =~= pairs);
        assert(((pairs.len() - 1) as nat) == init.len());
        assert(parse_pairs(data, start, init.len()) == Ok::<(Seq<(u16, u16)>, int), Seq<char>>(
            (init, p)));
    } else {
        assert(pairs =~= Seq::<(u16, u16)>::empty());
    }
}

/// The bytes of `rounds` all of width `width` take `width` bytes each.
proof fn lemma_rounds_roundtrip(data: Seq<u8>, start: int, rounds: Seq<Seq<u16>>, width: nat)
    requires
        holds_at(data, start, rounds_bytes(rounds)),
        forall|i: int| 0 <= i < rounds.len() ==> (#[trigger] rounds[i]).len() == width,
        forall|i: int, j: int|
            0 <= i < rounds.len() && 0 <= j < width ==> #[trigger] rounds[i][j] < 256,
    ensures
        rounds_bytes(rounds).len() == width * rounds.len(),
        parse_rounds(data, start, rounds.len(), width) == Ok::<(Seq<Seq<u16>>, int), Seq<char>>(
            (rounds, start + width * rounds.len()),
        ),
    decreases rounds.len(),
{
    if rounds.len() > 0 {
        let init = rounds.drop_last();
        let last = rounds.last();
        lemma_holds_at_split(data, start, rounds_bytes(init), round_bytes(last));
        assert forall|i: int| 0 <= i < init.len() implies (#[trigger] init[i]).len() == width by {
            assert(init[i] == rounds[i]);
        }
        assert forall|i: int, j: int| 0 <= i < init.len() && 0 <= j < width implies #[trigger] init[i][j]
            < 256 by {
            assert(init[i] == rounds[i]);
        }
        lemma_rounds_roundtrip(data, start, init, width);
        let p = start + width * init.len();
        assert(width * rounds.len() == width * init.len() + width) by (nonlinear_arith)
            requires
                rounds.len() == init.len() + 1,
        ;
        assert(last.len() == width);
        assert forall|j: int| 0 <= j < width implies #[trigger] last[j] < 256 by {
            assert(rounds[rounds.len() - 1][j] < 256);
        }
        assert(data.subrange(p, p + width) == round_bytes(last));
        assert(data.subrange(p, p + width).map_values(|b: u8| b as u16) =~= last);
        assert(init.push(last) =~= rounds);
        assert(((rounds.len() - 1) as nat) == init.len());
        assert(parse_rounds(data, start, init.len(), width) == Ok::<
            (Seq<Seq<u16>>, int),
            Seq<char>,
        >((init, p)));
        assert(p + width <= data.len());
    } else {
        assert(rounds =~= Seq::<Seq<u16>>::empty());
    }
}

/// Names read from a prefix of `data` are read the same from `data`, and
/// end within the prefix.
proof fn lemma_parse_names_prefix(data: Seq<u8>, k: int, start: int, count: nat)
    requires
        0 <= k <= data.len(),
        0 <= start <= k,
        parse_names(data.take(k), start, count) is Ok,
    ensures
        parse_names(data, start, count) == parse_names(data.take(k), start, count),
        start <= parse_names(data.take(k), start, count)->Ok_0.1 <= k,
    decreases count,
{
    let d = data.take(k);
    if count > 0 {
        let prev = parse_names(d, start, (count - 1) as nat);
        assert(prev is Ok);
        lemma_parse_names_prefix(data, k, start, (count - 1) as nat);
        let p = prev->Ok_0.1;
        assert(p < d.len());
        assert(d[p] == data[p]);
        let l = d[p] as int;
        assert(p + 1 + l <= d.len());
        assert(d.subrange(p + 1, p + 1 + l) =~= data.subrange(p + 1, p + 1 + l));
    }
}

/// Pairs read from a prefix of `data` are read the same from `data`, and
/// end within the prefix.
proof fn lemma_parse_pairs_prefix(data: Seq<u8>, k: int, start: int, count: nat)
    requires
        0 <= k <= data.len(),
        0 <= start <= k,
        parse_pairs(data.take(k), start, count) is Ok,
    ensures
        parse_pairs(data, start, count) == parse_pairs(data.take(k), start, count),
        start <= parse_pairs(data.take(k), start, count)->Ok_0.1 <= k,
    decreases count,
{
    let d = data.take(k);
    if count > 0 {
        let prev = parse_pairs(d, start, (count - 1) as nat);
        assert(prev is Ok);
        lemma_parse_pairs_prefix(data, k, start, (count - 1) as nat);
        let p = prev->Ok_0.1;
        assert(p + 1 < d.len());
        assert(d[p] == data[p]);
        assert(d[p + 1] == data[p + 1]);
    }
}

/// Rounds read from a prefix of `data` are read the same from `data`, and
/// end within the prefix.
proof fn lemma_parse_rounds_prefix(data: Seq<u8>, k: int, start: int, count: nat, width: nat)
    requires
        0 <= k <= data.len(),
        0 <= start <= k,
        parse_rounds(data.take(k), start, count, width) is Ok,
    ensures
        parse_rounds(data, start, count, width) == parse_rounds(data.take(k), start, count, width),
        start <= parse_rounds(data.take(k), start, count, width)->Ok_0.1 <= k,
    decreases count,
{
    let d = data.take(k);
    if count > 0 {
        let prev = parse_rounds(d, start, (count - 1) as nat, width);
        assert(prev is Ok);
        lemma_parse_rounds_prefix(data, k, start, (count - 1) as nat, width);
        let p = prev->Ok_0.1;
        assert(p + width <= d.len());
        assert(d.subrange(p, p + width) =~= data.subrange(p, p + width));
    }
}

/// No strict prefix of a state body is read as a state: every truncation
/// is rejected, never misread, when the counts of names, pairs and rounds,
/// every name's UTF-8 length and every member are below 256, and every
/// round has one member per name.
#[verifier::spinoff_prover]
#[verifier::rlimit(30)]
pub proof fn lemma_state_body_prefix_rejected(
    names: Seq<Seq<char>>,
    pairs: Seq<(u16, u16)>,
    rounds: Seq<Seq<u16>>,
    k: int,
)
    requires
        names.len() < 256,
        pairs.len() < 256,
        rounds.len() < 256,
        forall|i: int| 0 <= i < names.len() ==> encode_utf8(#[trigger] names[i]).len() < 256,
        forall|i: int| 0 <= i < pairs.len() ==> (#[trigger] pairs[i]).0 < 256 && pairs[i].1 < 256,
        forall|i: int| 0 <= i < rounds.len() ==> (#[trigger] rounds[i]).len() == names.len(),
        forall|i: int, j: int|
            0 <= i < rounds.len() && 0 <= j < names.len() ==> #[trigger] rounds[i][j] < 256,
        0 <= k < state_bytes(names, pairs, rounds).len(),
    ensures
        parse_state(state_bytes(names, pairs, rounds).take(k)) is Err,
{
    let data = state_bytes(names, pairs, rounds);
    let d = data.take(k);
    lemma_state_layout(names, pairs, rounds, Seq::empty());
    assert(data + Seq::<u8>::empty() =~= data);
    let p: int = 1 + names_bytes(names).len() as int;
    let q: int = p + 1 + 2 * pairs.len();
    if d.len() > 0 {
        assert(d[0] == data[0]);
        if parse_names(d, 1, d[0] as nat) is Ok {
            lemma_parse_names_prefix(data, k, 1, d[0] as nat);
            if p < d.len() {
                assert(d[p] == data[p]);
                if parse_pairs(d, p + 1, d[p] as nat) is Ok {
                    lemma_parse_pairs_prefix(data, k, p + 1, d[p] as nat);
                    if q < d.len() {
                        assert(d[q] == data[q]);
                        if parse_rounds(d, q + 1, d[q] as nat, names.len()) is Ok {
                            lemma_parse_rounds_prefix(data, k, q + 1, d[q] as nat, names.len());
                        }
                    }
                }
            }
        }
    }
}

/// A state body reads back as the state it was written from, whatever
/// follows it, when the counts of names, pairs and rounds, every name's
/// UTF-8 length and every member are below 256, and every round has one
/// member per name.
/// Where the parts of a state body lie, and that each reads back: the
/// names end at `p`, the pairs at `q`, and the rounds at the end of the
/// body, whatever follows it.
#[verifier::spinoff_prover]
#[verifier::rlimit(30)]
proof fn lemma_state_layout(
    names: Seq<Seq<char>>,
    pairs: Seq<(u16, u16)>,
    rounds: Seq<Seq<u16>>,
    rest: Seq<u8>,
)
    requires
        names.len() < 256,
        pairs.len() < 256,
        rounds.len() < 256,
        forall|i: int| 0 <= i < names.len() ==> encode_utf8(#[trigger] names[i]).len() < 256,
        forall|i: int| 0 <= i < pairs.len() ==> (#[trigger] pairs[i]).0 < 256 && pairs[i].1 < 256,
        forall|i: int| 0 <= i < rounds.len() ==> (#[trigger] rounds[i]).len() == names.len(),
        forall|i: int, j: int|
            0 <= i < rounds.len() && 0 <= j < names.len() ==> #[trigger] rounds[i][j] < 256,
    ensures
        ({
            let data = state_bytes(names, pairs, rounds) + rest;
            let p: int = 1 + names_bytes(names).len() as int;
            let q: int = p + 1 + 2 * pairs.len();
            &&& data.len() > 0
            &&& data[0] as nat == names.len()
            &&& parse_names(data, 1, data[0] as nat) == Ok::<(Seq<Seq<char>>, int), Seq<char>>(
                (names, p),
            )
            &&& p < data.len()
            &&& data[p] as nat == pairs.len()
            &&& parse_pairs(data, p + 1, data[p] as nat) == Ok::<(Seq<(u16, u16)>, int), Seq<char>>(
                (pairs, q),
            )
            &&& q < data.len()
            &&& data[q] as nat == rounds.len()
            &&& parse_rounds(data, q + 1, data[q] as nat, names.len()) == Ok::<
                (Seq<Seq<u16>>, int),
                Seq<char>,
            >((rounds, state_bytes(names, pairs, rounds).len() as int))
        }),
{
    let data = state_bytes(names, pairs, rounds) + rest;
    let nb = names_bytes(names);
    let pb = pairs_bytes(pairs);
    let rb = rounds_bytes(rounds);
    let c1 = seq![len_byte(names.len())];
    let c2 = seq![len_byte(pairs.len())];
    let c3 = seq![len_byte(rounds.len())];
    assert(data =~= c1 + nb + c2 + pb + c3 + rb + rest);
    assert(data.subrange(0, data.len() as int) =~= data);
    lemma_holds_at_split(data, 0, c1 + nb + c2 + pb + c3 + rb, rest);
    lemma_holds_at_split(data, 0, c1 + nb + c2 + pb + c3, rb);
    lemma_holds_at_split(data, 0, c1 + nb + c2 + pb, c3);
    lemma_holds_at_split(data, 0, c1 + nb + c2, pb);
    lemma_holds_at_split(data, 0, c1 + nb, c2);
    lemma_holds_at_split(data, 0, c1, nb);
    assert(data[0] == c1[0]);
    lemma_names_roundtrip(data, 1, names);
    let p: int = 1 + nb.len() as int;
    assert(data.subrange(p, p + 1)[0] == data[p]);
    assert(data[p] == c2[0]);
    lemma_pairs_roundtrip(data, p + 1, pairs);
    let q: int = p + 1 + pb.len();
    assert(data.subrange(q, q + 1)[0] == data[q]);
    assert(data[q] == c3[0]);
    lemma_rounds_roundtrip(data, q + 1, rounds, names.len());
    assert(state_bytes(names, pairs, rounds).len() == q + 1 + rb.len());
}

pub proof fn lemma_state_body_roundtrip(
    names: Seq<Seq<char>>,
    pairs: Seq<(u16, u16)>,
    rounds: Seq<Seq<u16>>,
    rest: Seq<u8>,
)
    requires
        names.len() < 256,
        pairs.len() < 256,
        rounds.len() < 256,
        forall|i: int| 0 <= i < names.len() ==> encode_utf8(#[trigger] names[i]).len() < 256,
        forall|i: int| 0 <= i < pairs.len() ==> (#[trigger] pairs[i]).0 < 256 && pairs[i].1 < 256,
        forall|i: int| 0 <= i < rounds.len() ==> (#[trigger] rounds[i]).len() == names.len(),
        forall|i: int, j: int|
            0 <= i < rounds.len() && 0 <= j < names.len() ==> #[trigger] rounds[i][j] < 256,
    ensures
        parse_state(state_bytes(names, pairs, rounds) + rest) == Ok::<
            (Seq<Seq<char>>, Seq<(u16, u16)>, Seq<Seq<u16>>),
            Seq<char>,
        >((names, pairs, rounds)),
{
    lemma_state_layout(names, pairs, rounds, rest);
}

/// The low sixteen bits of `x`.
pub open spec fn trunc16(x: u32) -> u16 {
    (x % 65536) as u16
}

/// A flat list taken two entries at a time as pairs; a trailing odd entry
/// is dropped.
pub open spec fn pair_tuples(flat: Seq<u32>) -> Seq<(u16, u16)> {
    Seq::new(flat.len() / 2, |i: int| (trunc16(flat[2 * i]), trunc16(flat[2 * i + 1])))
}

/// A flat history cut into rounds of `width` entries; the last round holds
/// whatever is left. With no names there are no rounds.
pub open spec fn history_rounds(flat: Seq<u32>, width: nat) -> Seq<Seq<u16>>
    decreases flat.len(),
{
    if width == 0 || flat.len() == 0 {
        seq![]
    } else if flat.len() <= width {
        seq![flat.map_values(|x: u32| trunc16(x))]
    } else {
        seq![flat.take(width as int).map_values(|x: u32| trunc16(x))] + history_rounds(
            flat.skip(width as int),
            width,
        )
    }
}

/// Pairs written back out as a flat list.
pub open spec fn flat_pairs(pairs: Seq<(u16, u16)>) -> Seq<u32>
    decreases pairs.len(),
{
    if pairs.len() == 0 {
        seq![]
    } else {
        flat_pairs(pairs.drop_last()) + seq![pairs.last().0 as u32, pairs.last().1 as u32]
    }
}

/// History rounds written back out as a flat list.
pub open spec fn flat_rounds(rounds: Seq<Seq<u16>>) -> Seq<u32>
    decreases rounds.len(),
{
    if rounds.len() == 0 {
        seq![]
    } else {
        flat_rounds(rounds.drop_last()) + rounds.last().map_values(|x: u16| x as u32)
    }
}

/// The version text of version 1.0.
pub open spec fn version_1_0_text() -> Seq<char> {
    decimal(1) + "."@ + decimal(0)
}

/// What encoding a state gives.
pub open spec fn spec_encode_state(
    names: Seq<Seq<char>>,
    forbidden_pairs: Seq<u32>,
    history: Seq<u32>,
) -> Result<Seq<char>, Seq<char>> {
    if forbidden_pairs.len() % 2 != 0 {
        Err("Forbidden pairs must have even length"@)
    } else {
        packed_text(
            versioned(
                state_bytes(
                    names,
                    pair_tuples(forbidden_pairs),
                    history_rounds(history, names.len()),
                ),
            ),
        )
    }
}

/// A decoded state over plain values: names, flat forbidden pairs, flat
/// history and version text.
pub type StateView = (Seq<Seq<char>>, Seq<u32>, Seq<u32>, Seq<char>);

/// What decoding the text `encoded` as a state gives.
pub open spec fn spec_decode_state(encoded: Seq<char>) -> Result<StateView, Seq<char>> {
    match unpacked(encoded) {
        None => Err("Base32 decode error"@),
        Some(Err(e)) => Err(e),
        Some(Ok(b)) => spec_read_state(b),
    }
}

/// What reading a decompressed state payload gives: the version byte must
/// be that of this format, and the body must hold a whole state.
pub open spec fn spec_read_state(payload: Seq<u8>) -> Result<StateView, Seq<char>> {
    if payload.len() == 0 {
        Err("Empty state"@)
    } else if payload[0] != VERSION_1_0 {
        Err(version_error(payload[0]))
    } else {
        match parse_state(payload.drop_first()) {
            Ok((names, pairs, rounds)) => Ok(
                (names, flat_pairs(pairs), flat_rounds(rounds), version_1_0_text()),
            ),
            Err(e) => Err("Deserialization error: "@ + e),
        }
    }
}

/// Application state read back from its shared text.
#[derive(Debug)]
pub struct DecodedState {
    pub names: Vec<String>,
    pub forbidden_pairs: Vec<u32>,
    pub history: Vec<u32>,
    pub version: String,
}

/// A decoded state result over plain values.
pub open spec fn state_result(res: Result<DecodedState, String>) -> Result<StateView, Seq<char>> {
    match res {
        Ok(st) => Ok((names_view(st.names@), st.forbidden_pairs@, st.history@, st.version@)),
        Err(e) => Err(e@),
    }
}

proof fn lemma_history_rounds_step(flat: Seq<u32>, start: int, width: nat)
    requires
        0 <= start < flat.len(),
        width > 0,
    ensures
        history_rounds(flat.skip(start), width) == seq![
            flat.subrange(start, if flat.len() - start < width { flat.len() as int } else { start + width }).map_values(|x: u32| trunc16(x))
        ] + history_rounds(
            flat.skip(if flat.len() - start < width { flat.len() as int } else { start + width }),
            width,
        ),
{
    let rest = flat.skip(start);
    if flat.len() - start <= width {
        assert(rest =~= flat.subrange(start, flat.len() as int));
        assert(flat.skip(flat.len() as int) =~= Seq::<u32>::empty());
        if flat.len() - start == width {
            assert(rest.skip(width as int) =~= Seq::<u32>::empty());
        }
    } else {
        assert(rest.take(width as int) =~= flat.subrange(start, start + width));
        assert(rest.skip(width as int) =~= flat.skip(start + width));
    }
}

impl DecodedState {
    /// The version text.
    pub fn version(&self) -> (res: String)
        ensures
            res@ == self.version@,
    {
        self.version.clone()
    }
}

/// Encodes application state into compact URL-safe text. `forbidden_pairs`
/// is a flat list of pairs and `history` a flat list of rounds with one entry
/// per name. It fails exactly when the pair list has odd length; otherwise
/// it returns lowercase base32 text, which decodes back to
/// the same names, pairs and history when the counts of names, pairs and
/// rounds, every name's UTF-8 length and every entry are below 256 and the
/// history is whole rounds (with no names, the history is dropped).
pub fn encode_state_v2(names: Vec<String>, forbidden_pairs: Vec<u32>, history: Vec<u32>) -> (res:
    Result<String, String>)
    ensures
        text_result(res) == spec_encode_state(names_view(names@), forbidden_pairs@, history@),
        res is Ok <==> forbidden_pairs@.len() % 2 == 0,
        res matches Ok(t) ==> is_url_text(t@),
        res matches Ok(t) ==> (state_fits(names_view(names@), forbidden_pairs@, history@)
            ==> spec_decode_state(t@) == Ok::<StateView, Seq<char>>(
            (
                names_view(names@),
                forbidden_pairs@,
                if names@.len() == 0 {
                    Seq::<u32>::empty()
                } else {
                    history@
                },
                version_1_0_text(),
            ),
        )),
{
    if forbidden_pairs.len() % 2 != 0 {
        return Err("Forbidden pairs must have even length".to_string());
    }
    let mut tuples: Vec<(u16, u16)> = Vec::new();
    let flat_len = forbidden_pairs.len();
    let pair_count = flat_len / 2;
    let mut i: usize = 0;
    while i < pair_count
        invariant
            i <= pair_count,
            flat_len == forbidden_pairs@.len(),
            pair_count == forbidden_pairs@.len() / 2,
            tuples@ == pair_tuples(forbidden_pairs@).take(i as int),
        decreases pair_count - i,
    {
        let a = (forbidden_pairs[2 * i] % 65536) as u16;
        let b = (forbidden_pairs[2 * i + 1] % 65536) as u16;
        tuples.push((a, b));
        assert(pair_tuples(forbidden_pairs@).take(i + 1) =~= pair_tuples(forbidden_pairs@).take(
            i as int,
        ).push((a, b)));
        i += 1;
    }
    assert(pair_tuples(forbidden_pairs@).take(pair_count as int) =~= pair_tuples(forbidden_pairs@));
    let width = names.len();
    let mut rounds: Vec<Vec<u16>> = Vec::new();
    if width > 0 {
        let mut start: usize = 0;
        assert(history@.skip(0) =~= history@);
        assert(rounds_view(rounds@) =~= Seq::<Seq<u16>>::empty());
        while start < history.len()
            invariant
                width > 0,
                start <= history@.len(),
                rounds_view(rounds@) + history_rounds(history@.skip(start as int), width as nat)
                    == history_rounds(history@, width as nat),
            decreases history@.len() - start,
        {
            let end = if history.len() - start < width {
                history.len()
            } else {
                start + width
            };
            let mut round: Vec<u16> = Vec::new();
            let mut k = start;
            while k < end
                invariant
                    start <= k <= end <= history@.len(),
                    round@ == history@.subrange(start as int, k as int).map_values(
                        |x: u32| trunc16(x),
                    ),
                decreases end - k,
            {
                round.push((history[k] % 65536) as u16);
                assert(history@.subrange(start as int, k + 1).map_values(|x: u32| trunc16(x))
                    =~= history@.subrange(start as int, k as int).map_values(
                    |x: u32| trunc16(x),
                ).push(trunc16(history@[k as int])));
                k += 1;
            }
            proof {
                lemma_history_rounds_step(history@, start as int, width as nat);
            }
            let ghost old_rounds = rounds@;
            rounds.push(round);
            assert(rounds_view(rounds@) =~= rounds_view(old_rounds).push(round@));
            start = end;
        }
        assert(history@.skip(history@.len() as int) =~= Seq::<u32>::empty());
        assert(rounds_view(rounds@) + Seq::<Seq<u16>>::empty() =~= rounds_view(rounds@));
    } else {
        assert(rounds_view(rounds@) =~= Seq::<Seq<u16>>::empty());
    }
    let ghost names_seq = names_view(names@);
    let state = CompactStateV1 { n: names, f: tuples, h: rounds };
    let body = state.serialize_ultra_compact();
    let mut binary = Vec::new();
    binary.push(VERSION_1_0);
    let mut j: usize = 0;
    while j < body.len()
        invariant
            j <= body@.len(),
            binary@ == seq![VERSION_1_0] + body@.subrange(0, j as int),
        decreases body@.len() - j,
    {
        binary.push(body[j]);
        assert(body@.subrange(0, j + 1) == body@.subrange(0, j as int).push(body@[j as int]));
        j += 1;
    }
    assert(body@.subrange(0, body@.len() as int) == body@);
    let res = pack(&binary);
    proof {
        if res is Ok && state_fits(names_seq, forbidden_pairs@, history@) {
            let t = res->Ok_0@;
            assert(upper_text(t) == ascii_upper(t));
            lemma_state_fits(names_seq, forbidden_pairs@, history@);
            lemma_state_body_roundtrip(
                names_seq,
                pair_tuples(forbidden_pairs@),
                history_rounds(history@, names_seq.len()),
                Seq::empty(),
            );
            assert(body@ + Seq::<u8>::empty() == body@);
            assert(binary@.drop_first() == body@);
        }
    }
    res
}

/// The sizes under which a state survives encoding: fewer than 256 names,
/// pairs and rounds, names shorter than 256 bytes in UTF-8, entries below
/// 256, and (with names) a history of whole rounds.
pub open spec fn state_fits(names: Seq<Seq<char>>, forbidden_pairs: Seq<u32>, history: Seq<u32>) -> bool {
    &&& names.len() < 256
    &&& forall|i: int| 0 <= i < names.len() ==> encode_utf8(#[trigger] names[i]).len() < 256
    &&& forbidden_pairs.len() % 2 == 0
    &&& forbidden_pairs.len() / 2 < 256
    &&& forall|i: int| 0 <= i < forbidden_pairs.len() ==> #[trigger] forbidden_pairs[i] < 256
    &&& names.len() > 0 ==> {
        &&& history.len() % names.len() == 0
        &&& history.len() / names.len() < 256
        &&& forall|i: int| 0 <= i < history.len() ==> #[trigger] history[i] < 256
    }
}

proof fn lemma_state_fits(names: Seq<Seq<char>>, forbidden_pairs: Seq<u32>, history: Seq<u32>)
    requires
        state_fits(names, forbidden_pairs, history),
    ensures
        ({
            let pairs = pair_tuples(forbidden_pairs);
            let rounds = history_rounds(history, names.len());
            &&& pairs.len() < 256
            &&& forall|i: int| 0 <= i < pairs.len() ==> (#[trigger] pairs[i]).0 < 256 && pairs[i].1 < 256
            &&& flat_pairs(pairs) == forbidden_pairs
            &&& rounds.len() < 256
            &&& forall|i: int| 0 <= i < rounds.len() ==> (#[trigger] rounds[i]).len() == names.len()
            &&& forall|i: int, j: int|
                0 <= i < rounds.len() && 0 <= j < names.len() ==> #[trigger] rounds[i][j] < 256
            &&& flat_rounds(rounds) == if names.len() == 0 {
                Seq::<u32>::empty()
            } else {
                history
            }
        }),
{
    let pairs = pair_tuples(forbidden_pairs);
    assert forall|i: int| 0 <= i < pairs.len() implies (#[trigger] pairs[i]).0 < 256 && pairs[i].1 < 256 by {
        assert(forbidden_pairs[2 * i] < 256);
        assert(forbidden_pairs[2 * i + 1] < 256);
    }
    lemma_flat_pairs(forbidden_pairs);
    if names.len() > 0 {
        lemma_rounds_of_whole_history(history, names.len());
    } else {
        assert(flat_rounds(Seq::<Seq<u16>>::empty()) == Seq::<u32>::empty());
    }
}

proof fn lemma_flat_pairs(flat: Seq<u32>)
    requires
        flat.len() % 2 == 0,
        forall|i: int| 0 <= i < flat.len() ==> #[trigger] flat[i] < 256,
    ensures
        flat_pairs(pair_tuples(flat)) == flat,
    decreases flat.len(),
{
    if flat.len() > 0 {
        let init = flat.take(flat.len() - 2);
        assert forall|i: int| 0 <= i < init.len() implies #[trigger] init[i] < 256 by {
            assert(init[i] == flat[i]);
        }
        lemma_flat_pairs(init);
        assert(pair_tuples(flat).drop_last() =~= pair_tuples(init));
        let last = pair_tuples(flat).last();
        assert(flat[flat.len() - 2] < 256 && flat[flat.len() - 1] < 256);
        assert(last.0 as u32 == flat[flat.len() - 2]);
        assert(last.1 as u32 == flat[flat.len() - 1]);
        assert(flat =~= init + seq![flat[flat.len() - 2], flat[flat.len() - 1]]);
    } else {
        assert(pair_tuples(flat) =~= Seq::<(u16, u16)>::empty());
        assert(flat =~= Seq::<u32>::empty());
    }
}

#[verifier::spinoff_prover]
#[verifier::rlimit(30)]
proof fn lemma_rounds_of_whole_history(history: Seq<u32>, width: nat)
    requires
        width > 0,
        history.len() % width == 0,
        forall|i: int| 0 <= i < history.len() ==> #[trigger] history[i] < 256,
    ensures
        history_rounds(history, width).len() == history.len() / width,
        forall|i: int|
            0 <= i < history_rounds(history, width).len() ==> (#[trigger] history_rounds(
                history,
                width,
            )[i]).len() == width,
        forall|i: int, j: int|
            0 <= i < history_rounds(history, width).len() && 0 <= j < width
                ==> #[trigger] history_rounds(history, width)[i][j] < 256,
        flat_rounds(history_rounds(history, width)) == history,
    decreases history.len(),
{
    let rounds = history_rounds(history, width);
    if history.len() == 0 {
        assert(flat_rounds(rounds) =~= history);
    } else {
        let first = history.take(width as int).map_values(|x: u32| trunc16(x));
        assert(history.len() >= width) by (nonlinear_arith)
            requires
                history.len() % width == 0,
                history.len() > 0,
                width > 0,
        ;
        assert forall|j: int| 0 <= j < width implies #[trigger] first[j] < 256
            && first[j] as u32 == history[j] by {
            assert(history[j] < 256);
        }
        assert(first.map_values(|x: u16| x as u32) =~= history.take(width as int));
        if history.len() == width {
            assert(history.take(width as int) =~= history);
            assert(rounds == seq![first]);
            assert(rounds.drop_last() =~= Seq::<Seq<u16>>::empty());
            assert(flat_rounds(rounds) == flat_rounds(Seq::<Seq<u16>>::empty()) + first.map_values(
                |x: u16| x as u32,
            ));
            assert(flat_rounds(rounds) =~= history);
        } else {
            let rest = history.skip(width as int);
            let hl = history.len() as int;
            let w = width as int;
            assert((hl - w) % w == 0 && (hl - w) / w == hl / w - 1) by (nonlinear_arith)
                requires
                    hl % w == 0,
                    hl > w,
                    w > 0,
            ;
            assert forall|i: int| 0 <= i < rest.len() implies #[trigger] rest[i] < 256 by {
                assert(rest[i] == history[i + width]);
            }
            lemma_rounds_of_whole_history(rest, width);
            let later = history_rounds(rest, width);
            assert(rounds == seq![first] + later);
            assert forall|i: int| 0 <= i < rounds.len() implies (#[trigger] rounds[i]).len()
                == width by {
                if i > 0 {
                    assert(rounds[i] == later[i - 1]);
                }
            }
            assert forall|i: int, j: int| 0 <= i < rounds.len() && 0 <= j < width
                implies #[trigger] rounds[i][j] < 256 by {
                if i > 0 {
                    assert(rounds[i] == later[i - 1]);
                    assert(later[i - 1][j] < 256);
                }
            }
            lemma_flat_rounds_prepend(first, later);
            assert(history =~= history.take(width as int) + rest);
        }
    }
}

proof fn lemma_flat_rounds_prepend(first: Seq<u16>, rest: Seq<Seq<u16>>)
    ensures
        flat_rounds(seq![first] + rest) == first.map_values(|x: u16| x as u32) + flat_rounds(rest),
    decreases rest.len(),
{
    if rest.len() == 0 {
        assert(seq![first] + rest =~= seq![first]);
        assert(seq![first].drop_last() =~= Seq::<Seq<u16>>::empty());
        assert(flat_rounds(Seq::<Seq<u16>>::empty()) =~= Seq::<u32>::empty());
        assert(first.map_values(|x: u16| x as u32) + Seq::<u32>::empty() =~= first.map_values(
            |x: u16| x as u32,
        ));
    } else {
        lemma_flat_rounds_prepend(first, rest.drop_last());
        assert((seq![first] + rest).drop_last() =~= seq![first] + rest.drop_last());
        assert((seq![first] + rest).last() == rest.last());
    }
}

/// Decodes compact URL-safe text (upper or lower case) back into
/// application state: the names, the forbidden pairs as a flat list, the
/// history rounds as a flat list, and the version as text.
pub fn decode_state_v2(encoded: &str) -> (res: Result<DecodedState, String>)
    ensures
        state_result(res) == spec_decode_state(encoded@),
{
    let binary = match unpack(encoded) {
        None => {
            return Err("Base32 decode error".to_string());
        },
        Some(Err(e)) => {
            return Err(e);
        },
        Some(Ok(b)) => b,
    };
    decode_state_payload(binary.as_slice())
}

/// Reads a decompressed state payload: checks that it is not empty and
/// that its version byte is this format's, then reads the state and
/// flattens its pairs and history.
pub fn decode_state_payload(payload: &[u8]) -> (res: Result<DecodedState, String>)
    ensures
        state_result(res) == spec_read_state(payload@),
{
    if payload.len() == 0 {
        return Err("Empty state".to_string());
    }
    let version = payload[0];
    if version != VERSION_1_0 {
        return Err(version_error_text(version));
    }
    let body = vstd::slice::slice_subrange(payload, 1, payload.len());
    assert(body@ == payload@.drop_first());
    let state = match CompactStateV1::deserialize_ultra_compact(body) {
        Ok(st) => st,
        Err(e) => {
            return Err(joined("Deserialization error: ", e.as_str()));
        },
    };
    let mut pairs: Vec<u32> = Vec::new();
    let mut i: usize = 0;
    while i < state.f.len()
        invariant
            i <= state.f@.len(),
            pairs@ == flat_pairs(state.f@.take(i as int)),
        decreases state.f@.len() - i,
    {
        let (a, b) = state.f[i];
        pairs.push(a as u32);
        pairs.push(b as u32);
        assert(state.f@.take(i + 1).drop_last() =~= state.f@.take(i as int));
        i += 1;
    }
    assert(state.f@.take(state.f@.len() as int) =~= state.f@);
    let ghost rounds = rounds_view(state.h@);
    let mut history: Vec<u32> = Vec::new();
    let mut r: usize = 0;
    while r < state.h.len()
        invariant
            r <= state.h@.len(),
            rounds == rounds_view(state.h@),
            history@ == flat_rounds(rounds.take(r as int)),
        decreases state.h@.len() - r,
    {
        let round = &state.h[r];
        let ghost before = history@;
        let mut j: usize = 0;
        while j < round.len()
            invariant
                j <= round@.len(),
                history@ == before + round@.take(j as int).map_values(|x: u16| x as u32),
            decreases round@.len() - j,
        {
            history.push(round[j] as u32);
            assert(round@.take(j + 1).map_values(|x: u16| x as u32) =~= round@.take(
                j as int,
            ).map_values(|x: u16| x as u32).push(round@[j as int] as u32));
            j += 1;
        }
        assert(round@.take(round@.len() as int) =~= round@);
        assert(rounds.take(r + 1).drop_last() =~= rounds.take(r as int));
        r += 1;
    }
    assert(rounds.take(rounds.len() as int) =~= rounds);
    let mut version_text = decimal_text(version / 16);
    version_text.append(".");
    let minor = decimal_text(version % 16);
    version_text.append(minor.as_str());
    Ok(DecodedState { names: state.n, forbidden_pairs: pairs, history, version: version_text })
}

/// Reading shared text ignores the case of ASCII text: text and its
/// uppercase form give the same state, and the same message whenever the
/// text is base32 (otherwise both are errors, quoting each its own text).
pub proof fn lemma_decoding_ignores_case(encoded: Seq<char>)
    requires
        is_ascii_chars(encoded),
    ensures
        unpacked(ascii_upper(encoded)) == unpacked(encoded),
        spec_decode_state(ascii_upper(encoded)) == spec_decode_state(encoded),
        unpacked(encoded) is Some ==> spec_decode_message(ascii_upper(encoded))
            == spec_decode_message(encoded),
        unpacked(encoded) is None ==> spec_decode_message(ascii_upper(encoded)) is Err
            && spec_decode_message(encoded) is Err,
{
    lemma_ascii_upper_idempotent(encoded);
}

} // verus!
