//! The text of an XML file from its bytes: the encoding is told by the byte
//! order mark, the text decoded, and Windows line ends made Unix ones.

use vstd::prelude::*;
use vstd::string::*;
use crate::text::{chars_vec, push_char};

verus! {

/// The encodings a file may come in.
#[derive(Debug, Clone, Copy, PartialEq, Eq, Structural)]
pub enum TextEncoding {
    Utf8,
    Utf16Le,
    Utf16Be,
}

/// The encoding the byte order mark tells, and whether there is one
/// (UTF-8 without one).
pub open spec fn encoding_of(b: Seq<u8>) -> (TextEncoding, bool) {
    if b.len() >= 2 && b[0] == 0xFF && b[1] == 0xFE {
        (TextEncoding::Utf16Le, true)
    } else if b.len() >= 2 && b[0] == 0xFE && b[1] == 0xFF {
        (TextEncoding::Utf16Be, true)
    } else if b.len() >= 3 && b[0] == 0xEF && b[1] == 0xBB && b[2] == 0xBF {
        (TextEncoding::Utf8, true)
    } else {
        (TextEncoding::Utf8, false)
    }
}

/// Tells the encoding of a file by its byte order mark.
pub fn detect_encoding(bytes: &[u8]) -> (r: (TextEncoding, bool))
    ensures
        r == encoding_of(bytes@),
{
    if bytes.len() >= 2 && bytes[0] == 0xFF && bytes[1] == 0xFE {
        return (TextEncoding::Utf16Le, true);
    }
    if bytes.len() >= 2 && bytes[0] == 0xFE && bytes[1] == 0xFF {
        return (TextEncoding::Utf16Be, true);
    }
    if bytes.len() >= 3 && bytes[0] == 0xEF && bytes[1] == 0xBB && bytes[2] == 0xBF {
        return (TextEncoding::Utf8, true);
    }
    (TextEncoding::Utf8, false)
}

/// The length of the byte order mark of an encoding.
pub open spec fn bom_length(e: TextEncoding) -> int {
    match e {
        TextEncoding::Utf8 => 3,
        _ => 2,
    }
}

/// What `encoding_rs::Encoding::decode` gives for the bytes, in the encoding
/// (malformed sequences replaced by U+FFFD; a byte order mark at the start
/// chooses the encoding and is dropped).
pub uninterp spec fn decoded_text(encoding: TextEncoding, bytes: Seq<u8>) -> Seq<char>;

/// `encoding_rs::Encoding::decode` with UTF-8, UTF-16LE or UTF-16BE; its
/// size computations do not overflow for inputs this small.
#[verifier::external_body]
fn decode_bytes(encoding: TextEncoding, bytes: &[u8]) -> (r: String)
    requires
        bytes@.len() <= usize::MAX / 8,
    ensures
        r@ == decoded_text(encoding, bytes@),
{
    let enc = match encoding {
        TextEncoding::Utf8 => encoding_rs::UTF_8,
        TextEncoding::Utf16Le => encoding_rs::UTF_16LE,
        TextEncoding::Utf16Be => encoding_rs::UTF_16BE,
    };
    let (text, _, _) = enc.decode(bytes);
    text.into_owned()
}

/// Each "\r\n" replaced by "\n" (`str::replace`, left to right).
pub open spec fn crlf_to_lf_spec(s: Seq<char>) -> Seq<char>
    decreases s.len(),
{
    if s.len() == 0 {
        s
    } else if s.len() >= 2 && s[0] == '\r' && s[1] == '\n' {
        seq!['\n'] + crlf_to_lf_spec(s.skip(2))
    } else {
        seq![s[0]] + crlf_to_lf_spec(s.skip(1))
    }
}

/// Windows line ends made Unix ones.
pub fn crlf_to_lf(text: &str) -> (r: String)
    ensures
        r@ == crlf_to_lf_spec(text@),
{
    let v = chars_vec(text);
    let n = v.len();
    let mut out = String::new();
    let mut i: usize = 0;
    assert(v@.skip(0) =~= v@);
    while i < n
        invariant
            i <= n == v@.len(),
            v@ == text@,
            crlf_to_lf_spec(text@) == out@ + crlf_to_lf_spec(v@.skip(i as int)),
        decreases n - i,
    {
        let ghost rest = v@.skip(i as int);
        let ghost before = out@;
        if i + 1 < n && v[i] == '\r' && v[i + 1] == '\n' {
            push_char(&mut out, '\n');
            assert(rest.skip(2) =~= v@.skip(i + 2));
            assert(before + (seq!['\n'] + crlf_to_lf_spec(v@.skip(i + 2))) =~= out@
                + crlf_to_lf_spec(v@.skip(i + 2)));
            i = i + 2;
        } else {
            push_char(&mut out, v[i]);
            assert(rest.skip(1) =~= v@.skip(i + 1));
            assert(before + (seq![rest[0]] + crlf_to_lf_spec(v@.skip(i + 1))) =~= out@
                + crlf_to_lf_spec(v@.skip(i + 1)));
            i = i + 1;
        }
    }
    assert(out@ + v@.skip(n as int) =~= out@);
    out
}

/// The text of an XML file from its bytes: the encoding told by the byte
/// order mark (which is dropped), the rest decoded, "\r\n" made "\n".
pub fn decode_xml_bytes(bytes: &[u8]) -> (r: String)
    requires
        bytes@.len() <= usize::MAX / 8,
    ensures
        r@ == crlf_to_lf_spec(
            decoded_text(
                encoding_of(bytes@).0,
                if encoding_of(bytes@).1 {
                    bytes@.skip(bom_length(encoding_of(bytes@).0))
                } else {
                    bytes@
                },
            ),
        ),
{
    let (enc, has_bom) = detect_encoding(bytes);
    let start: usize = if has_bom {
        match enc {
            TextEncoding::Utf8 => 3,
            _ => 2,
        }
    } else {
        0
    };
    let rest = slice_from(bytes, start);
    assert(has_bom ==> rest@ =~= bytes@.skip(bom_length(enc)));
    assert(!has_bom ==> rest@ =~= bytes@);
    let text = decode_bytes(enc, rest);
    crlf_to_lf(text.as_str())
}

fn slice_from(bytes: &[u8], start: usize) -> (r: &[u8])
    requires
        start <= bytes@.len(),
    ensures
        r@ == bytes@.skip(start as int),
{
    let r = vstd::slice::slice_subrange(bytes, start, bytes.len());
    assert(r@ =~= bytes@.skip(start as int));
    r
}

} // verus!
