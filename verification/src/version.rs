//! The macOS version check that decides how system audio is captured.

use vstd::prelude::*;
use vstd::utf8::{decode_utf8, valid_utf8};
use crate::text::{
    chars_of, decode_utf8_lossy, parse_i32, parse_i32_spec, split_chars, split_on, trim, trim_whitespace,
    utf8_lossy, decimal, is_white_space, lemma_decimal_value, lemma_parse_decimal,
    lemma_split_first_piece, lemma_split_without_separator, lemma_trim_text, all_digits,
};

verus! {

/// A macOS product version, major and minor number.
#[derive(Debug, Clone, Copy, PartialEq, Eq, Structural, PartialOrd)]
pub struct MacVersion {
    pub major: i32,
    pub minor: i32,
}

/// How system audio is captured on a given macOS version.
#[derive(Debug, Clone, Copy, PartialEq, Eq, Structural)]
pub enum CaptureBackend {
    /// A Core Audio process tap on an aggregate device (macOS 14.2 and later).
    CoreAudioTap,
    /// A ScreenCaptureKit stream with audio (earlier versions).
    ScreenCaptureStream,
}

/// Core Audio taps exist from macOS 14.2 on.
pub open spec fn ca_tap_supported(v: MacVersion) -> bool {
    v.major > 14 || (v.major == 14 && v.minor >= 2)
}

/// The backend that a speaker input for `device_id` uses on version `v`:
/// a Core Audio tap where taps exist, a ScreenCaptureKit stream otherwise.
pub open spec fn input_backend(v: MacVersion, device_id: Option<Seq<char>>) -> CaptureBackend {
    if ca_tap_supported(v) {
        CaptureBackend::CoreAudioTap
    } else {
        CaptureBackend::ScreenCaptureStream
    }
}

/// The version assumed when the running version cannot be read: 13.0.
pub open spec fn fallback_version() -> MacVersion {
    MacVersion { major: 13, minor: 0 }
}

/// The version written in `text` (the output of `sw_vers -productVersion`):
/// the text is trimmed and split on `.`, and the first two pieces, when there
/// are at least two, must both parse as `i32`.
pub open spec fn version_from_text(text: Seq<char>) -> Option<MacVersion> {
    let parts = split_on(trim(text), '.');
    if parts.len() >= 2 {
        match (parse_i32_spec(parts[0]), parse_i32_spec(parts[1])) {
            (Some(major), Some(minor)) => Some(MacVersion { major, minor }),
            _ => None,
        }
    } else {
        None
    }
}

/// The version that the output of the version command stands for, or the
/// fallback when the command did not run or its output does not parse.
pub open spec fn version_from_output(stdout: Option<Seq<u8>>) -> MacVersion {
    match stdout {
        None => fallback_version(),
        Some(bytes) => match version_from_text(utf8_lossy(bytes)) {
            Some(v) => v,
            None => fallback_version(),
        },
    }
}

/// Versions in their natural order: by major number, then by minor number.
pub open spec fn version_le(a: MacVersion, b: MacVersion) -> bool {
    a.major < b.major || (a.major == b.major && a.minor <= b.minor)
}

impl MacVersion {
    /// Whether this version has Core Audio process taps (macOS 14.2+).
    pub fn supports_ca_tap(&self) -> (r: bool)
        ensures
            r == ca_tap_supported(*self),
    {
        self.major > 14 || (self.major == 14 && self.minor >= 2)
    }

    /// The backend that a speaker input opened on this version uses. The
    /// requested device is not consulted: system audio is captured whole.
    pub fn speaker_input_backend(&self, device_id: Option<&str>) -> (b: CaptureBackend)
        ensures
            b == input_backend(
                *self,
                match device_id {
                    Some(d) => Some(d@),
                    None => None,
                },
            ),
            (b == CaptureBackend::CoreAudioTap) <==> (self.major > 14 || (self.major == 14
                && self.minor >= 2)),
            (b == CaptureBackend::ScreenCaptureStream) <==> !(self.major > 14 || (self.major == 14
                && self.minor >= 2)),
    {
        if self.supports_ca_tap() {
            CaptureBackend::CoreAudioTap
        } else {
            CaptureBackend::ScreenCaptureStream
        }
    }

    /// Reads a product version such as `14.2.1` from the version command's text.
    pub fn parse_product_version(text: &str) -> (r: Option<MacVersion>)
        ensures
            r == version_from_text(text@),
    {
        let trimmed = trim_whitespace(text);
        let chars = chars_of(trimmed);
        let parts = split_chars(chars.as_slice(), '.');
        if parts.len() >= 2 {
            let major = parse_i32(parts[0].as_slice());
            let minor = parse_i32(parts[1].as_slice());
            match (major, minor) {
                (Some(major), Some(minor)) => Some(MacVersion { major, minor }),
                _ => None,
            }
        } else {
            None
        }
    }

    /// The version that the version command's standard output stands for
    /// (`None` when the command could not be run), falling back to 13.0.
    pub fn from_product_version_output(stdout: Option<&[u8]>) -> (v: MacVersion)
        ensures
            v == version_from_output(
                match stdout {
                    Some(b) => Some(b@),
                    None => None,
                },
            ),
            match stdout {
                Some(b) => valid_utf8(b@) ==> v == (match version_from_text(decode_utf8(b@)) {
                    Some(w) => w,
                    None => fallback_version(),
                }),
                None => v == fallback_version(),
            },
    {
        match stdout {
            None => MacVersion { major: 13, minor: 0 },
            Some(bytes) => {
                let text = decode_utf8_lossy(bytes);
                match MacVersion::parse_product_version(text.as_str()) {
                    Some(v) => v,
                    None => MacVersion { major: 13, minor: 0 },
                }
            },
        }
    }
}

/// The requested device has no influence on the backend: two speaker inputs
/// opened on the same version use the same backend.
pub proof fn lemma_backend_ignores_device(
    v: MacVersion,
    first: Option<Seq<char>>,
    second: Option<Seq<char>>,
)
    ensures
        input_backend(v, first) == input_backend(v, second),
{
}

/// A newer version supports Core Audio taps whenever an older one does.
pub proof fn lemma_ca_tap_support_is_monotone(older: MacVersion, newer: MacVersion)
    requires
        version_le(older, newer),
        ca_tap_supported(older),
    ensures
        ca_tap_supported(newer),
{
}


proof fn lemma_decimal_has_no_dot(n: nat)
    ensures
        !decimal(n).contains('.'),
        !is_white_space(decimal(n)[0]),
        !is_white_space(decimal(n).last()),
{
    lemma_decimal_value(n);
    let d = decimal(n);
    assert(all_digits(d));
    if d.contains('.') {
        let k = choose|k: int| 0 <= k < d.len() && d[k] == '.';
        assert(crate::text::is_digit(d[k]));
    }
    assert(crate::text::is_digit(d[0]));
    assert(crate::text::is_digit(d[d.len() - 1]));
}

/// A version written as `major.minor`, optionally followed by further
/// `.`-separated components and by trailing white space (such as the newline
/// that ends the version command's output), reads back as `major.minor`.
pub proof fn lemma_version_text_round_trip(
    major: nat,
    minor: nat,
    rest: Seq<char>,
    trailing: Seq<char>,
)
    requires
        major <= i32::MAX,
        minor <= i32::MAX,
        rest.len() == 0 || (rest[0] == '.' && !is_white_space(rest.last())),
        forall|i: int| 0 <= i < trailing.len() ==> is_white_space(#[trigger] trailing[i]),
    ensures
        version_from_text(decimal(major) + seq!['.'] + decimal(minor) + rest + trailing) == Some(
            MacVersion { major: major as i32, minor: minor as i32 },
        ),
{
    let dmaj = decimal(major);
    let dmin = decimal(minor);
    lemma_decimal_has_no_dot(major);
    lemma_decimal_has_no_dot(minor);
    lemma_decimal_value(major);
    lemma_decimal_value(minor);
    let body = dmaj + seq!['.'] + dmin + rest;
    let text = body + trailing;
    assert(body[0] == dmaj[0]);
    if rest.len() == 0 {
        assert(body.last() == dmin.last());
    } else {
        assert(body.last() == rest.last());
    }
    lemma_trim_text(body, trailing);
    assert(trim(text) == body);
    let tail = dmin + rest;
    assert(body =~= dmaj + seq!['.'] + tail);
    lemma_split_first_piece(dmaj, '.', tail);
    if rest.len() == 0 {
        assert(tail =~= dmin);
        lemma_split_without_separator(dmin, '.');
    } else {
        let more = rest.drop_first();
        assert(tail =~= dmin + seq!['.'] + more);
        lemma_split_first_piece(dmin, '.', more);
    }
    let parts = split_on(body, '.');
    assert(parts[0] == dmaj);
    assert(parts[1] == dmin);
    lemma_parse_decimal(major);
    lemma_parse_decimal(minor);
}

/// A speaker input uses a Core Audio tap exactly on macOS 14.2 and later
/// (major above 14, or major 14 with minor at least 2), and a
/// ScreenCaptureKit stream on every earlier version, whatever device is asked for.
pub proof fn lemma_backend_is_tap_exactly_from_14_2(v: MacVersion, device_id: Option<Seq<char>>)
    ensures
        (input_backend(v, device_id) == CaptureBackend::CoreAudioTap) <==> (v.major > 14 || (
        v.major == 14 && v.minor >= 2)),
        (input_backend(v, device_id) == CaptureBackend::ScreenCaptureStream) <==> (v.major < 14
            || (v.major == 14 && v.minor < 2)),
{
}

/// Whenever the version command's output reads as a version, that version is
/// the one taken, and the fallback 13.0 is taken only when it does not read.
pub proof fn lemma_output_takes_the_parsed_version(bytes: Seq<u8>)
    ensures
        match version_from_text(utf8_lossy(bytes)) {
            Some(w) => version_from_output(Some(bytes)) == w,
            None => version_from_output(Some(bytes)) == fallback_version(),
        },
        version_from_output(None) == fallback_version(),
        fallback_version().major == 13 && fallback_version().minor == 0,
{
}

/// Output that reads `major.minor`, optionally followed by further
/// `.`-separated components and by trailing white space (such as
/// `15.3.1\n`), gives exactly that major and minor number.
pub proof fn lemma_output_round_trip(
    bytes: Seq<u8>,
    major: nat,
    minor: nat,
    rest: Seq<char>,
    trailing: Seq<char>,
)
    requires
        major <= i32::MAX,
        minor <= i32::MAX,
        rest.len() == 0 || (rest[0] == '.' && !is_white_space(rest.last())),
        forall|i: int| 0 <= i < trailing.len() ==> is_white_space(#[trigger] trailing[i]),
        utf8_lossy(bytes) == decimal(major) + seq!['.'] + decimal(minor) + rest + trailing,
    ensures
        version_from_output(Some(bytes)).major == major,
        version_from_output(Some(bytes)).minor == minor,
{
    lemma_version_text_round_trip(major, minor, rest, trailing);
}

} // verus!
