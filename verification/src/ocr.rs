//! The computing part of the OCR command: decoding the Base64 image that the
//! front end sends, and turning what the text recognizer printed into the
//! command's result.

use vstd::prelude::*;
use base64::engine::general_purpose::STANDARD;
use base64::{DecodeError, Engine};
use crate::text::{decimal, decode_utf8_lossy, trim, trim_whitespace, utf8_lossy};

verus! {

/// Why the Base64 engine refused its input (the variants of
/// `base64::DecodeError`, with their offsets and bytes).
#[derive(Debug, Clone, Copy, PartialEq, Eq, Structural)]
pub enum Base64Error {
    /// A byte that is not a symbol of the alphabet, at an offset.
    InvalidByte(usize, u8),
    /// An input whose number of symbols cannot be decoded.
    InvalidLength(usize),
    /// A last symbol whose discarded bits are not zero, at an offset.
    InvalidLastSymbol(usize, u8),
    /// Padding that is missing, misplaced or not canonical.
    InvalidPadding,
}

/// Name for what the standard Base64 engine (RFC 4648 alphabet, canonical
/// padding) makes of the text `input`.
pub uninterp spec fn standard_base64_decode(input: Seq<char>) -> Result<Seq<u8>, Base64Error>;

/// The symbol for the six-bit value `v` in the standard Base64 alphabet of
/// RFC 4648: `A`-`Z`, `a`-`z`, `0`-`9`, then `+` and `/`.
pub open spec fn standard_symbol(v: int) -> char {
    if v < 26 {
        (65 + v) as char
    } else if v < 52 {
        (97 + v - 26) as char
    } else if v < 62 {
        (48 + v - 52) as char
    } else if v == 62 {
        '+'
    } else {
        '/'
    }
}

/// The standard, padded Base64 encoding of `bytes` (RFC 4648): each group of
/// three bytes becomes four symbols, and a last group of one or two bytes is
/// completed with `=`.
pub open spec fn standard_base64_encode(bytes: Seq<u8>) -> Seq<char>
    decreases bytes.len(),
{
    if bytes.len() == 0 {
        Seq::<char>::empty()
    } else if bytes.len() == 1 {
        let b0 = bytes[0] as int;
        seq![standard_symbol(b0 / 4), standard_symbol((b0 % 4) * 16), '=', '=']
    } else if bytes.len() == 2 {
        let b0 = bytes[0] as int;
        let b1 = bytes[1] as int;
        seq![
            standard_symbol(b0 / 4),
            standard_symbol((b0 % 4) * 16 + b1 / 16),
            standard_symbol((b1 % 16) * 4),
            '=',
        ]
    } else {
        let b0 = bytes[0] as int;
        let b1 = bytes[1] as int;
        let b2 = bytes[2] as int;
        seq![
            standard_symbol(b0 / 4),
            standard_symbol((b0 % 4) * 16 + b1 / 16),
            standard_symbol((b1 % 16) * 4 + b2 / 64),
            standard_symbol(b2 % 64),
        ] + standard_base64_encode(bytes.skip(3))
    }
}

/// Whether `text` is the standard Base64 encoding of some bytes.
pub open spec fn is_standard_encoding(text: Seq<char>) -> bool {
    exists|b: Seq<u8>| #[trigger] standard_base64_encode(b) == text
}

/// The text that `DecodeError`'s `Display` writes for an error.
pub open spec fn base64_error_text(e: Base64Error) -> Seq<char> {
    match e {
        Base64Error::InvalidByte(index, byte) => "Invalid symbol "@ + decimal(byte as nat)
            + ", offset "@ + decimal(index as nat) + "."@,
        Base64Error::InvalidLength(len) => "Invalid input length: "@ + decimal(len as nat),
        Base64Error::InvalidLastSymbol(index, byte) => "Invalid last symbol "@ + decimal(
            byte as nat,
        ) + ", offset "@ + decimal(index as nat) + "."@,
        Base64Error::InvalidPadding => "Invalid padding"@,
    }
}

/// The message the OCR command gives for an image that is not valid Base64.
pub open spec fn decode_failure_message(e: Base64Error) -> Seq<char> {
    "Failed to decode base64: "@ + base64_error_text(e)
}

/// Calls `Engine::decode` of `base64::engine::general_purpose::STANDARD` on
/// the text's bytes. Trusted: the result, with the error's variant and fields
/// carried over one for one, is the name `standard_base64_decode` of the text;
/// and, as the engine is the standard alphabet with canonical padding, the
/// standard encoding of any bytes decodes back to those bytes.
#[verifier::external_body]
fn decode_standard_base64(input: &str) -> (r: Result<Vec<u8>, Base64Error>)
    ensures
        match r {
            Ok(bytes) => standard_base64_decode(input@) == Ok::<Seq<u8>, Base64Error>(bytes@) && (
            is_standard_encoding(input@) ==> standard_base64_encode(bytes@) == input@),
            Err(e) => standard_base64_decode(input@) == Err::<Seq<u8>, Base64Error>(e)
                && !is_standard_encoding(input@),
        },
{
    match STANDARD.decode(input) {
        Ok(bytes) => Ok(bytes),
        Err(DecodeError::InvalidByte(index, byte)) => Err(Base64Error::InvalidByte(index, byte)),
        Err(DecodeError::InvalidLength(len)) => Err(Base64Error::InvalidLength(len)),
        Err(DecodeError::InvalidLastSymbol(index, byte)) => Err(
            Base64Error::InvalidLastSymbol(index, byte),
        ),
        Err(DecodeError::InvalidPadding) => Err(Base64Error::InvalidPadding),
    }
}

/// Formats a `base64::DecodeError` with its `Display`. Trusted: the text is
/// the one that `Display` writes, which the crate's source gives line by line.
#[verifier::external_body]
fn describe_base64_error(e: Base64Error) -> (s: String)
    ensures
        s@ == base64_error_text(e),
{
    let err = match e {
        Base64Error::InvalidByte(index, byte) => DecodeError::InvalidByte(index, byte),
        Base64Error::InvalidLength(len) => DecodeError::InvalidLength(len),
        Base64Error::InvalidLastSymbol(index, byte) => DecodeError::InvalidLastSymbol(index, byte),
        Base64Error::InvalidPadding => DecodeError::InvalidPadding,
    };
    format!("{}", err)
}

/// The image bytes of a decoding result, or the OCR command's message for a
/// decoding error.
pub fn image_bytes_or_message(decoded: Result<Vec<u8>, Base64Error>) -> (r: Result<Vec<u8>, String>)
    ensures
        match decoded {
            Ok(bytes) => r matches Ok(out) && out@ == bytes@,
            Err(e) => r matches Err(msg) && msg@ == decode_failure_message(e),
        },
{
    match decoded {
        Ok(bytes) => Ok(bytes),
        Err(e) => {
            let mut msg = String::from_str("Failed to decode base64: ");
            let detail = describe_base64_error(e);
            msg.append(detail.as_str());
            Err(msg)
        },
    }
}

/// Decodes the Base64 image that the OCR command receives, or gives the
/// command's error message.
pub fn decode_image_base64(base64_image: &str) -> (r: Result<Vec<u8>, String>)
    ensures
        match standard_base64_decode(base64_image@) {
            Ok(bytes) => r matches Ok(out) && out@ == bytes,
            Err(e) => r matches Err(msg) && msg@ == decode_failure_message(e),
        },
        forall|b: Seq<u8>|
            #[trigger] standard_base64_encode(b) == base64_image@ ==> (r matches Ok(out) && out@
                == b),
{
    let decoded = decode_standard_base64(base64_image);
    proof {
        assert forall|b: Seq<u8>| #[trigger]
            standard_base64_encode(b) == base64_image@ implies (decoded matches Ok(v) && v@
            == b) by {
            let v = decoded->Ok_0;
            lemma_standard_encoding_injective(v@, b);
        }
    }
    image_bytes_or_message(decoded)
}

/// The OCR command's result from the recognizer's exit status and its
/// decoded output: on success the standard output without surrounding white
/// space, otherwise an error that carries the standard error text.
pub fn recognized_text(success: bool, stdout_text: &str, stderr_text: &str) -> (r: Result<
    String,
    String,
>)
    ensures
        success ==> (r matches Ok(text) && text@ == trim(stdout_text@)),
        !success ==> (r matches Err(msg) && msg@ == "OCR failed: "@ + stderr_text@),
{
    if !success {
        let mut msg = String::from_str("OCR failed: ");
        msg.append(stderr_text);
        return Err(msg);
    }
    Ok(String::from_str(trim_whitespace(stdout_text)))
}

/// The OCR command's result from the recognizer's exit status and the raw
/// bytes it wrote, decoded as `String::from_utf8_lossy` does.
pub fn ocr_result(success: bool, stdout: &[u8], stderr: &[u8]) -> (r: Result<String, String>)
    ensures
        success ==> (r matches Ok(text) && text@ == trim(utf8_lossy(stdout@))),
        !success ==> (r matches Err(msg) && msg@ == "OCR failed: "@ + utf8_lossy(stderr@)),
{
    if !success {
        let err_text = decode_utf8_lossy(stderr);
        return recognized_text(false, "", err_text.as_str());
    }
    let out_text = decode_utf8_lossy(stdout);
    recognized_text(true, out_text.as_str(), "")
}

/// The standard alphabet gives every six-bit value its own symbol, with
/// `+` for 62 and `/` for 63, and never the padding symbol `=`.
pub proof fn lemma_standard_alphabet(v: int, w: int)
    requires
        0 <= v < 64,
        0 <= w < 64,
    ensures
        standard_symbol(62) == '+',
        standard_symbol(63) == '/',
        standard_symbol(v) != '=',
        standard_symbol(v) == standard_symbol(w) ==> v == w,
{
    broadcast use vstd::utf8::char_u32_cast;

    assert(('=' as u32) == 61);
    if v < 62 {
        assert((standard_symbol(v) as u32) == (if v < 26 {
            65 + v
        } else if v < 52 {
            97 + v - 26
        } else {
            48 + v - 52
        }));
    }
    if w < 62 {
        assert((standard_symbol(w) as u32) == (if w < 26 {
            65 + w
        } else if w < 52 {
            97 + w - 26
        } else {
            48 + w - 52
        }));
    }
    assert(('+' as u32) == 43);
    assert(('/' as u32) == 47);
}

/// Standard encoding writes four symbols for every started group of three
/// bytes.
pub proof fn lemma_standard_encoding_length(bytes: Seq<u8>)
    ensures
        standard_base64_encode(bytes).len() == 4 * ((bytes.len() + 2) / 3),
    decreases bytes.len(),
{
    if bytes.len() > 2 {
        lemma_standard_encoding_length(bytes.skip(3));
    }
}

proof fn lemma_group_bytes(b0: int, b1: int, b2: int, c0: int, c1: int, c2: int)
    requires
        0 <= b0 < 256,
        0 <= b1 < 256,
        0 <= b2 < 256,
        0 <= c0 < 256,
        0 <= c1 < 256,
        0 <= c2 < 256,
        b0 / 4 == c0 / 4,
        (b0 % 4) * 16 + b1 / 16 == (c0 % 4) * 16 + c1 / 16,
        (b1 % 16) * 4 + b2 / 64 == (c1 % 16) * 4 + c2 / 64,
        b2 % 64 == c2 % 64,
    ensures
        b0 == c0,
        b1 == c1,
        b2 == c2,
{
    assert(b0 % 4 == c0 % 4);
    assert(b1 / 16 == c1 / 16);
    assert(b1 % 16 == c1 % 16);
    assert(b2 / 64 == c2 / 64);
}

proof fn lemma_symbols_equal(v: int, w: int)
    requires
        0 <= v < 64,
        0 <= w < 64,
        standard_symbol(v) == standard_symbol(w),
    ensures
        v == w,
{
    lemma_standard_alphabet(v, w);
}

proof fn lemma_encoding_head(a: Seq<u8>)
    requires
        a.len() > 0,
    ensures
        standard_base64_encode(a).len() >= 4,
        standard_base64_encode(a)[0] == standard_symbol(a[0] as int / 4),
        a.len() == 1 ==> standard_base64_encode(a)[1] == standard_symbol((a[0] as int % 4) * 16)
            && standard_base64_encode(a)[2] == '=' && standard_base64_encode(a)[3] == '=',
        a.len() == 2 ==> standard_base64_encode(a)[1] == standard_symbol(
            (a[0] as int % 4) * 16 + a[1] as int / 16,
        ) && standard_base64_encode(a)[2] == standard_symbol((a[1] as int % 16) * 4)
            && standard_base64_encode(a)[3] == '=',
        a.len() >= 3 ==> standard_base64_encode(a)[1] == standard_symbol(
            (a[0] as int % 4) * 16 + a[1] as int / 16,
        ) && standard_base64_encode(a)[2] == standard_symbol(
            (a[1] as int % 16) * 4 + a[2] as int / 64,
        ) && standard_base64_encode(a)[3] == standard_symbol(a[2] as int % 64)
            && standard_base64_encode(a).skip(4) == standard_base64_encode(a.skip(3)),
{
    let e = standard_base64_encode(a);
    if a.len() >= 3 {
        let g = seq![
            standard_symbol(a[0] as int / 4),
            standard_symbol((a[0] as int % 4) * 16 + a[1] as int / 16),
            standard_symbol((a[1] as int % 16) * 4 + a[2] as int / 64),
            standard_symbol(a[2] as int % 64),
        ];
        assert(e == g + standard_base64_encode(a.skip(3)));
        assert(e.skip(4) =~= standard_base64_encode(a.skip(3)));
    }
}

/// Different bytes have different standard encodings, so decoding the
/// encoding of some bytes can only give those bytes.
pub proof fn lemma_standard_encoding_injective(a: Seq<u8>, b: Seq<u8>)
    requires
        standard_base64_encode(a) == standard_base64_encode(b),
    ensures
        a == b,
    decreases a.len(),
{
    let e = standard_base64_encode(a);
    lemma_standard_encoding_length(a);
    lemma_standard_encoding_length(b);
    if a.len() == 0 || b.len() == 0 {
        assert(a.len() == 0 && b.len() == 0);
        assert(a =~= b);
        return;
    }
    lemma_encoding_head(a);
    lemma_encoding_head(b);
    let a0 = a[0] as int;
    let b0 = b[0] as int;
    lemma_symbols_equal(a0 / 4, b0 / 4);
    // the padding symbols tell the lengths of the last groups apart
    if a.len() == 1 {
        if b.len() >= 2 {
            lemma_standard_alphabet(
                if b.len() == 2 {
                    (b[1] as int % 16) * 4
                } else {
                    (b[1] as int % 16) * 4 + b[2] as int / 64
                },
                0,
            );
        }
        lemma_symbols_equal((a0 % 4) * 16, (b0 % 4) * 16);
        assert(a0 % 4 == b0 % 4);
        assert(a[0] == b[0]);
        assert(a =~= b);
    } else if a.len() == 2 {
        if b.len() == 1 {
            lemma_standard_alphabet((a[1] as int % 16) * 4, 0);
        } else if b.len() >= 3 {
            lemma_standard_alphabet(b[2] as int % 64, 0);
        }
        let a1 = a[1] as int;
        let b1 = b[1] as int;
        lemma_symbols_equal((a0 % 4) * 16 + a1 / 16, (b0 % 4) * 16 + b1 / 16);
        lemma_symbols_equal((a1 % 16) * 4, (b1 % 16) * 4);
        lemma_group_bytes(a0, a1, 0, b0, b1, 0);
        assert(a =~= b);
    } else {
        if b.len() == 1 {
            lemma_standard_alphabet((a[1] as int % 16) * 4 + a[2] as int / 64, 0);
        } else if b.len() == 2 {
            lemma_standard_alphabet(a[2] as int % 64, 0);
        }
        let a1 = a[1] as int;
        let b1 = b[1] as int;
        let a2 = a[2] as int;
        let b2 = b[2] as int;
        lemma_symbols_equal((a0 % 4) * 16 + a1 / 16, (b0 % 4) * 16 + b1 / 16);
        lemma_symbols_equal((a1 % 16) * 4 + a2 / 64, (b1 % 16) * 4 + b2 / 64);
        lemma_symbols_equal(a2 % 64, b2 % 64);
        lemma_group_bytes(a0, a1, a2, b0, b1, b2);
        lemma_standard_encoding_injective(a.skip(3), b.skip(3));
        assert(a =~= a.take(3) + a.skip(3));
        assert(b =~= b.take(3) + b.skip(3));
        assert(a.take(3) =~= b.take(3));
    }
}

} // verus!
