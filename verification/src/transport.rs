//! The outside work behind the text codecs: UTF-8 decoding, ASCII case
//! folding, raw DEFLATE streams and RFC 4648 base32. Each call is a thin
//! wrapper whose contract is trusted; base32 is specified here bit by bit,
//! and that its text decodes back is proved. The codecs built on top of
//! these calls are verified in `url_encoding`.
use flate2::write::{DeflateDecoder, DeflateEncoder};
use flate2::Compression;
use std::io::Write;
use vstd::prelude::*;
use vstd::utf8::*;

verus! {

/// `c` lowered when it is an ASCII capital letter, unchanged otherwise.
pub open spec fn ascii_lower_char(c: char) -> char {
    if 'A' <= c && c <= 'Z' {
        ((c as u32) + 32) as char
    } else {
        c
    }
}

/// `c` raised when it is an ASCII small letter, unchanged otherwise.
pub open spec fn ascii_upper_char(c: char) -> char {
    if 'a' <= c && c <= 'z' {
        ((c as u32) - 32) as char
    } else {
        c
    }
}

pub open spec fn ascii_lower(s: Seq<char>) -> Seq<char> {
    s.map_values(|c: char| ascii_lower_char(c))
}

pub open spec fn ascii_upper(s: Seq<char>) -> Seq<char> {
    s.map_values(|c: char| ascii_upper_char(c))
}

/// A character of the RFC 4648 base32 alphabet: `A`-`Z` and `2`-`7`.
pub open spec fn is_base32_char(c: char) -> bool {
    ('A' <= c && c <= 'Z') || ('2' <= c && c <= '7')
}

/// The lowercase form of a text, as `str::to_lowercase` computes it.
pub uninterp spec fn lowercase(s: Seq<char>) -> Seq<char>;

/// The uppercase form of a text, as `str::to_uppercase` computes it.
pub uninterp spec fn uppercase(s: Seq<char>) -> Seq<char>;

/// Calls `str::to_lowercase`. Claimed: the result is `lowercase` of the
/// input, and on ASCII text it only lowers the letters `A`-`Z`.
#[verifier::external_body]
pub(crate) fn to_lowercase(s: &str) -> (res: String)
    ensures
        res@ == lowercase(s@),
        is_ascii_chars(s@) ==> res@ == ascii_lower(s@),
{
    s.to_lowercase()
}

/// Calls `str::to_uppercase`. Claimed: the result is `uppercase` of the
/// input, and on ASCII text it only raises the letters `a`-`z`.
#[verifier::external_body]
pub(crate) fn to_uppercase(s: &str) -> (res: String)
    ensures
        res@ == uppercase(s@),
        is_ascii_chars(s@) ==> res@ == ascii_upper(s@),
{
    s.to_uppercase()
}

/// The text of the error that `String::from_utf8` reports for `bytes`.
pub uninterp spec fn utf8_error_text(bytes: Seq<u8>) -> Seq<char>;

/// Calls `String::from_utf8` on a copy of `bytes`. Claimed: it succeeds
/// exactly on valid UTF-8, with the decoded characters; otherwise the error
/// text is `utf8_error_text(bytes)`.
#[verifier::external_body]
pub(crate) fn string_from_utf8(bytes: &[u8]) -> (res: Result<String, String>)
    ensures
        match res {
            Ok(s) => valid_utf8(bytes@) && s@ == decode_utf8(bytes@),
            Err(e) => !valid_utf8(bytes@) && e@ == utf8_error_text(bytes@),
        },
{
    String::from_utf8(bytes.to_vec()).map_err(|e| e.to_string())
}

/// How a raw DEFLATE stream operation failed: while writing the input
/// (`Write`) or while finishing the stream (`Finish`), with the I/O error's
/// text.
#[derive(Debug)]
pub enum StreamFailure {
    Write(String),
    Finish(String),
}

/// A stream outcome over plain values: the produced bytes, or whether the
/// failure came at the finish step together with the error text.
pub open spec fn stream_outcome(res: Result<Vec<u8>, StreamFailure>) -> Result<
    Seq<u8>,
    (bool, Seq<char>),
> {
    match res {
        Ok(v) => Ok(v@),
        Err(StreamFailure::Write(t)) => Err((false, t@)),
        Err(StreamFailure::Finish(t)) => Err((true, t@)),
    }
}

/// What a raw DEFLATE encoder at the best compression level gives for
/// `data` (`flate2::write::DeflateEncoder` writing into a `Vec`).
pub uninterp spec fn deflate_outcome(data: Seq<u8>) -> Result<Seq<u8>, (bool, Seq<char>)>;

/// What a raw DEFLATE decoder gives for `data`
/// (`flate2::write::DeflateDecoder` writing into a `Vec`).
pub uninterp spec fn inflate_outcome(data: Seq<u8>) -> Result<Seq<u8>, (bool, Seq<char>)>;

/// Compresses `data` with `flate2::write::DeflateEncoder` at
/// `Compression::best()`: `write_all`, then `finish`. Claimed: the outcome is
/// `deflate_outcome(data)`, it succeeds (the output goes to a `Vec`, which
/// never refuses a write, and the compressor runs with flate2's own valid
/// parameters), and the output decompresses back to `data`.
#[verifier::external_body]
pub(crate) fn deflate(data: &[u8]) -> (res: Result<Vec<u8>, StreamFailure>)
    ensures
        stream_outcome(res) == deflate_outcome(data@),
        res is Ok,
        match res {
            Ok(v) => inflate_outcome(v@) == Ok::<Seq<u8>, (bool, Seq<char>)>(data@),
            Err(_) => true,
        },
{
    let mut encoder = DeflateEncoder::new(Vec::new(), Compression::best());
    if let Err(e) = encoder.write_all(data) {
        return Err(StreamFailure::Write(e.to_string()));
    }
    encoder.finish().map_err(|e| StreamFailure::Finish(e.to_string()))
}

/// Decompresses `data` with `flate2::write::DeflateDecoder`: `write_all`,
/// then `finish`. Claimed: the outcome is `inflate_outcome(data)`.
#[verifier::external_body]
pub(crate) fn inflate(data: &[u8]) -> (res: Result<Vec<u8>, StreamFailure>)
    ensures
        stream_outcome(res) == inflate_outcome(data@),
{
    let mut decoder = DeflateDecoder::new(Vec::new());
    if let Err(e) = decoder.write_all(data) {
        return Err(StreamFailure::Write(e.to_string()));
    }
    decoder.finish().map_err(|e| StreamFailure::Finish(e.to_string()))
}

/// 2 to the power `k`, for `k` from 0 to 7.
pub open spec fn bit_weight(k: int) -> int {
    if k <= 0 {
        1
    } else if k == 1 {
        2
    } else if k == 2 {
        4
    } else if k == 3 {
        8
    } else if k == 4 {
        16
    } else if k == 5 {
        32
    } else if k == 6 {
        64
    } else {
        128
    }
}

/// Bit `b` of `data` read as one stream, most significant bit of each byte
/// first; 0 past the end.
pub open spec fn byte_stream_bit(data: Seq<u8>, b: int) -> int {
    if 0 <= b < 8 * data.len() {
        (data[b / 8] as int / bit_weight(7 - b % 8)) % 2
    } else {
        0
    }
}

/// The five bits of `data`'s stream that the `i`-th base32 character holds.
pub open spec fn quintet(data: Seq<u8>, i: int) -> int {
    16 * byte_stream_bit(data, 5 * i) + 8 * byte_stream_bit(data, 5 * i + 1) + 4
        * byte_stream_bit(data, 5 * i + 2) + 2 * byte_stream_bit(data, 5 * i + 3)
        + byte_stream_bit(data, 5 * i + 4)
}

/// The RFC 4648 character for a value below 32: `A`-`Z`, then `2`-`7`.
pub open spec fn base32_char(v: int) -> char {
    if v < 26 {
        (65 + v) as char
    } else {
        (24 + v) as char
    }
}

/// The unpadded RFC 4648 base32 text of `data` (`base32::encode` with
/// `Alphabet::RFC4648 { padding: false }`): one character per five bits of
/// the stream, the last group filled with zero bits.
pub closed spec fn base32_text(data: Seq<u8>) -> Seq<char> {
    Seq::new(((8 * data.len() + 4) / 5) as nat, |i: int| base32_char(quintet(data, i)))
}

/// The value `base32::decode` gives a character: capitals and small letters
/// alike, `2`-`7` after the letters, `=` read as `A`; none for any other
/// character.
pub open spec fn base32_value(c: char) -> Option<int> {
    if 'A' <= c && c <= 'Z' {
        Some(c as int - 65)
    } else if 'a' <= c && c <= 'z' {
        Some(c as int - 97)
    } else if '2' <= c && c <= '7' {
        Some(c as int - 24)
    } else if c == '=' {
        Some(0)
    } else {
        None
    }
}

/// Bit `b` of the stream of five-bit values of `text`; 0 past the end.
pub open spec fn text_stream_bit(text: Seq<char>, b: int) -> int {
    if 0 <= b < 5 * text.len() {
        (base32_value(text[b / 5])->Some_0 / bit_weight(4 - b % 5)) % 2
    } else {
        0
    }
}

/// Byte `j` of the stream of five-bit values of `text`.
pub open spec fn text_byte(text: Seq<char>, j: int) -> int {
    128 * text_stream_bit(text, 8 * j) + 64 * text_stream_bit(text, 8 * j + 1) + 32
        * text_stream_bit(text, 8 * j + 2) + 16 * text_stream_bit(text, 8 * j + 3) + 8
        * text_stream_bit(text, 8 * j + 4) + 4 * text_stream_bit(text, 8 * j + 5) + 2
        * text_stream_bit(text, 8 * j + 6) + text_stream_bit(text, 8 * j + 7)
}

/// The number of `=` that end `text`, counting at most `limit`.
pub open spec fn trailing_pad(text: Seq<char>, limit: nat) -> nat
    decreases limit,
{
    if limit > 0 && text.len() > 0 && text.last() == '=' {
        1 + trailing_pad(text.drop_last(), (limit - 1) as nat)
    } else {
        0
    }
}

/// What `base32::decode` with `Alphabet::RFC4648 { padding: false }` gives
/// for `text`: none when a character is outside the alphabet (see
/// `base32_value`), else the first bytes of its five-bit stream, as many as
/// five eighths of its length without the last (at most six) `=`.
pub closed spec fn base32_bytes(text: Seq<char>) -> Option<Seq<u8>> {
    if exists|i: int| 0 <= i < text.len() && #[trigger] base32_value(text[i]) is None {
        None
    } else {
        Some(
            Seq::new(
                ((text.len() - trailing_pad(text, 6)) * 5 / 8) as nat,
                |j: int| text_byte(text, j) as u8,
            ),
        )
    }
}

/// Reading back one five-bit group: each of its bits is recovered.
proof fn lemma_quintet_bits(x0: int, x1: int, x2: int, x3: int, x4: int)
    requires
        0 <= x0 <= 1,
        0 <= x1 <= 1,
        0 <= x2 <= 1,
        0 <= x3 <= 1,
        0 <= x4 <= 1,
    ensures
        ({
            let v = 16 * x0 + 8 * x1 + 4 * x2 + 2 * x3 + x4;
            &&& 0 <= v < 32
            &&& (v / 16) % 2 == x0
            &&& (v / 8) % 2 == x1
            &&& (v / 4) % 2 == x2
            &&& (v / 2) % 2 == x3
            &&& (v / 1) % 2 == x4
        }),
{
}

/// A byte is the sum of its bits.
proof fn lemma_byte_bits(x: u8)
    ensures
        x as int == 128 * ((x as int / 128) % 2) + 64 * ((x as int / 64) % 2) + 32 * ((x as int
            / 32) % 2) + 16 * ((x as int / 16) % 2) + 8 * ((x as int / 8) % 2) + 4 * ((x as int
            / 4) % 2) + 2 * ((x as int / 2) % 2) + (x as int / 1) % 2,
{
    assert(x == 128 * ((x / 128) % 2) + 64 * ((x / 64) % 2) + 32 * ((x / 32) % 2) + 16 * ((x
        / 16) % 2) + 8 * ((x / 8) % 2) + 4 * ((x / 4) % 2) + 2 * ((x / 2) % 2) + (x / 1) % 2)
        by (bit_vector);
}

/// The `i`-th character of base32 text is of the alphabet and reads back
/// as the five bits it was made from.
proof fn lemma_base32_char_value(data: Seq<u8>, i: int)
    requires
        0 <= i,
    ensures
        0 <= quintet(data, i) < 32,
        is_base32_char(base32_char(quintet(data, i))),
        base32_value(base32_char(quintet(data, i))) == Some(quintet(data, i)),
{
    lemma_quintet_bits(
        byte_stream_bit(data, 5 * i),
        byte_stream_bit(data, 5 * i + 1),
        byte_stream_bit(data, 5 * i + 2),
        byte_stream_bit(data, 5 * i + 3),
        byte_stream_bit(data, 5 * i + 4),
    );
}

/// Bit `b` of the five-bit stream of base32 text is bit `b` of the bytes.
proof fn lemma_base32_stream_bit(data: Seq<u8>, b: int)
    requires
        0 <= b < 8 * data.len(),
    ensures
        text_stream_bit(base32_text(data), b) == byte_stream_bit(data, b),
{
    let t = base32_text(data);
    let n = data.len() as int;
    let l = t.len() as int;
    let i = b / 5;
    assert(b < 5 * l) by (nonlinear_arith)
        requires
            l == (8 * n + 4) / 5,
            b < 8 * n,
    ;
    lemma_base32_char_value(data, i);
    assert(t[i] == base32_char(quintet(data, i)));
    lemma_quintet_bits(
        byte_stream_bit(data, 5 * i),
        byte_stream_bit(data, 5 * i + 1),
        byte_stream_bit(data, 5 * i + 2),
        byte_stream_bit(data, 5 * i + 3),
        byte_stream_bit(data, 5 * i + 4),
    );
    assert(b == 5 * i + b % 5);
}

/// Bit `k` of byte `j` in the stream of `data`.
proof fn lemma_byte_stream_bit_at(data: Seq<u8>, j: int, k: int)
    requires
        0 <= j < data.len(),
        0 <= k < 8,
    ensures
        byte_stream_bit(data, 8 * j + k) == (data[j] as int / bit_weight(7 - k)) % 2,
{
    assert((8 * j + k) / 8 == j);
    assert((8 * j + k) % 8 == k);
}

/// Byte `j` of the five-bit stream of base32 text is byte `j` of the data.
proof fn lemma_base32_stream_byte(data: Seq<u8>, j: int)
    requires
        0 <= j < data.len(),
    ensures
        text_byte(base32_text(data), j) == data[j] as int,
{
    let t = base32_text(data);
    let x = data[j] as int;
    lemma_byte_bits(data[j]);
    assert forall|k: int| 0 <= k < 8 implies #[trigger] text_stream_bit(t, 8 * j + k) == (x
        / bit_weight(7 - k)) % 2 by {
        lemma_base32_stream_bit(data, 8 * j + k);
        lemma_byte_stream_bit_at(data, j, k);
    }
    assert(text_stream_bit(t, 8 * j + 0) == (x / 128) % 2);
    assert(text_stream_bit(t, 8 * j + 1) == (x / 64) % 2);
    assert(text_stream_bit(t, 8 * j + 2) == (x / 32) % 2);
    assert(text_stream_bit(t, 8 * j + 3) == (x / 16) % 2);
    assert(text_stream_bit(t, 8 * j + 4) == (x / 8) % 2);
    assert(text_stream_bit(t, 8 * j + 5) == (x / 4) % 2);
    assert(text_stream_bit(t, 8 * j + 6) == (x / 2) % 2);
    assert(text_stream_bit(t, 8 * j + 7) == (x / 1) % 2);
    assert(8 * j + 0 == 8 * j);
}

/// Base32 text is made of the alphabet's characters and decodes back to
/// the bytes it was made from.
pub proof fn lemma_base32_roundtrip(data: Seq<u8>)
    ensures
        forall|i: int|
            0 <= i < base32_text(data).len() ==> is_base32_char(#[trigger] base32_text(data)[i]),
        base32_bytes(base32_text(data)) == Some(data),
{
    let t = base32_text(data);
    let n = data.len() as int;
    let l = t.len() as int;
    assert forall|i: int| 0 <= i < l implies is_base32_char(#[trigger] t[i]) && base32_value(t[i])
        is Some by {
        lemma_base32_char_value(data, i);
    }
    assert(!exists|i: int| 0 <= i < t.len() && #[trigger] base32_value(t[i]) is None);
    if l > 0 {
        assert(is_base32_char(t[l - 1]));
        assert(t.last() != '=');
    }
    assert(trailing_pad(t, 6) == 0);
    assert((l * 5) / 8 == n) by (nonlinear_arith)
        requires
            l == (8 * n + 4) / 5,
            n >= 0,
    ;
    let out = Seq::new(((l - 0) * 5 / 8) as nat, |j: int| text_byte(t, j) as u8);
    assert forall|j: int| 0 <= j < n implies out[j] == data[j] by {
        lemma_base32_stream_byte(data, j);
    }
    assert(out =~= data);
}

/// Calls `base32::encode` with `Alphabet::RFC4648 { padding: false }`.
/// Claimed: the result is `base32_text(data)`.
#[verifier::external_body]
pub(crate) fn base32_encode(data: &[u8]) -> (res: String)
    ensures
        res@ == base32_text(data@),
{
    base32::encode(base32::Alphabet::RFC4648 { padding: false }, data)
}

/// Calls `base32::decode` with `Alphabet::RFC4648 { padding: false }`.
/// Claimed: the result is `base32_bytes(text)`.
#[verifier::external_body]
pub(crate) fn base32_decode(text: &str) -> (res: Option<Vec<u8>>)
    ensures
        match res {
            Some(v) => base32_bytes(text@) == Some(v@),
            None => base32_bytes(text@) is None,
        },
{
    base32::decode(base32::Alphabet::RFC4648 { padding: false }, text)
}

/// A character of the lowercase base32 alphabet: `a`-`z` and `2`-`7`.
pub open spec fn is_lower_base32_char(c: char) -> bool {
    ('a' <= c && c <= 'z') || ('2' <= c && c <= '7')
}

/// Lowering base32 text gives lowercase base32 text that raises back to it.
pub proof fn lemma_base32_case_roundtrip(s: Seq<char>)
    requires
        forall|i: int| 0 <= i < s.len() ==> is_base32_char(#[trigger] s[i]),
    ensures
        is_ascii_chars(ascii_lower(s)),
        ascii_upper(ascii_lower(s)) == s,
        forall|i: int| 0 <= i < s.len() ==> is_lower_base32_char(#[trigger] ascii_lower(s)[i]),
{
    assert forall|i: int| 0 <= i < s.len() implies {
        &&& ascii_upper_char(ascii_lower_char(s[i])) == s[i]
        &&& is_lower_base32_char(ascii_lower_char(s[i]))
        &&& '\0' <= ascii_lower_char(s[i]) <= '\u{7f}'
    } by {
        let c = s[i];
        if 'A' <= c && c <= 'Z' {
            let l = ((c as u32) + 32) as char;
            assert((l as u32) == (c as u32) + 32);
            assert((((l as u32) - 32) as u32) == c as u32);
            vstd::utf8::char_u32_cast(c, ((l as u32) - 32) as u32);
        }
    }
    assert(ascii_upper(ascii_lower(s)) =~= s);
}

/// Raising ASCII text gives ASCII text that raising leaves unchanged.
pub proof fn lemma_ascii_upper_idempotent(s: Seq<char>)
    requires
        is_ascii_chars(s),
    ensures
        is_ascii_chars(ascii_upper(s)),
        ascii_upper(ascii_upper(s)) == ascii_upper(s),
{
    assert forall|i: int| 0 <= i < s.len() implies {
        &&& '\0' <= ascii_upper_char(s[i]) <= '\u{7f}'
        &&& ascii_upper_char(ascii_upper_char(s[i])) == ascii_upper_char(s[i])
    } by {
        let c = s[i];
        if 'a' <= c && c <= 'z' {
            let u = ((c as u32) - 32) as char;
            assert((u as u32) == (c as u32) - 32);
        }
    }
    assert(ascii_upper(ascii_upper(s)) =~= ascii_upper(s));
}

} // verus!
