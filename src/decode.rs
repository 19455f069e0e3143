//! Decoding input lines from bytes, strictly or with replacement characters.
use vstd::prelude::*;
use vstd::utf8::{decode_utf8, valid_utf8};

verus! {

/// How the bytes of the input are read as text.
#[derive(Clone, Copy, Debug, PartialEq, Eq, Structural)]
pub enum Encoding {
    /// UTF-8, with each invalid sequence replaced by U+FFFD.
    UTF8Lossy,
    /// UTF-8; invalid input is an error.
    UTF8,
}

#[verifier::external_type_specification]
#[verifier::external_body]
pub struct ExUtf8Error(core::str::Utf8Error);

/// Relies on `core::str::from_utf8`: it accepts exactly the valid UTF-8 byte
/// sequences and reads them as the characters they encode.
pub assume_specification<'a>[ core::str::from_utf8 ](v: &'a [u8]) -> (r: Result<
    &'a str,
    core::str::Utf8Error,
>)
    ensures
        r is Ok <==> valid_utf8(v@),
        r is Ok ==> r->Ok_0@ == decode_utf8(v@),
;

/// The text that `String::from_utf8_lossy` makes of `b`.
pub uninterp spec fn lossy_utf8(b: Seq<u8>) -> Seq<char>;

/// Relies on `String::from_utf8_lossy`: the result depends on the bytes alone,
/// and valid UTF-8 is read as the characters it encodes.
#[verifier::external_body]
fn decode_lossy(bytes: &[u8]) -> (r: String)
    ensures
        r@ == lossy_utf8(bytes@),
        valid_utf8(bytes@) ==> r@ == decode_utf8(bytes@),
{
    String::from_utf8_lossy(bytes).into_owned()
}

/// A line as read up to and including its `'\n'`, without that line break or
/// the `'\r'` just before it.
pub open spec fn line_content(b: Seq<u8>) -> Seq<u8> {
    if b.len() > 0 && b.last() == 10u8 {
        let c = b.drop_last();
        if c.len() > 0 && c.last() == 13u8 {
            c.drop_last()
        } else {
            c
        }
    } else {
        b
    }
}

/// Decodes one line of input, as read up to and including its `'\n'`; the
/// text returned holds no line break. Under `UTF8` it is `None` exactly when
/// the line is not valid UTF-8; under `UTF8Lossy` it is always some text.
pub fn decode_line(bytes: &[u8], encoding: Encoding) -> (r: Option<String>)
    ensures
        encoding == Encoding::UTF8 ==> {
            &&& r is Some <==> valid_utf8(line_content(bytes@))
            &&& r is Some ==> r->0@ == decode_utf8(line_content(bytes@))
        },
        encoding == Encoding::UTF8Lossy ==> {
            &&& r is Some
            &&& r->0@ == lossy_utf8(line_content(bytes@))
            &&& valid_utf8(line_content(bytes@)) ==> r->0@ == decode_utf8(line_content(bytes@))
        },
{
    let mut n = bytes.len();
    if n > 0 && bytes[n - 1] == 10u8 {
        n = n - 1;
        if n > 0 && bytes[n - 1] == 13u8 {
            n = n - 1;
        }
    }
    let content = bytes.split_at(n).0;
    assert(content@ == line_content(bytes@));
    match encoding {
        Encoding::UTF8 => match core::str::from_utf8(content) {
            Ok(s) => Some(s.to_owned()),
            Err(_) => None,
        },
        Encoding::UTF8Lossy => Some(decode_lossy(content)),
    }
}

} // verus!
