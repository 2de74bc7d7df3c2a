use core::str::Utf8Error;
use vstd::prelude::*;
use vstd::string::is_ascii;
use vstd::string::StringSliceAdditionalSpecFns;
use vstd::utf8::{decode_utf8, valid_utf8};

verus! {

#[verifier::external_type_specification]
#[verifier::external_body]
pub struct ExUtf8Error(Utf8Error);

/// std's `str::from_utf8`: documented to return the bytes as a string slice when
/// they are valid UTF-8 and an error otherwise; the claim is stated over vstd's
/// model of UTF-8.
#[verifier::external_body]
fn str_from_utf8(v: &[u8]) -> (r: Result<&str, Utf8Error>)
    ensures
        r is Ok <==> valid_utf8(v@),
        r matches Ok(s) ==> s.spec_bytes() == v@,
{
    core::str::from_utf8(v)
}

/// The ASCII codes of the characters `s`.
pub open spec fn ascii_bytes(s: Seq<char>) -> Seq<u8> {
    Seq::new(s.len(), |i: int| s[i] as u8)
}

/// Turns text into the bytes that a frame carries, and back.
pub struct Encoder {}

impl Encoder {
    /// The bytes of `input` when it is ASCII; an error message otherwise.
    pub fn encode(input: &str) -> (r: Result<&[u8], String>)
        ensures
            is_ascii(input) ==> (r matches Ok(b) && b@ == ascii_bytes(input@)),
            !is_ascii(input) ==> (r matches Err(e) && e@ == "This input cant encode. Only ascii charactor is accepted."@),
    {
        if !input.is_ascii() {
            return Err("This input cant encode. Only ascii charactor is accepted.".to_owned());
        }
        let byte_input = input.as_bytes();
        proof {
            vstd::string::is_ascii_spec_bytes(input);
            assert(byte_input@ =~= ascii_bytes(input@));
        }
        Ok(byte_input)
    }

    /// The text that `input` encodes in UTF-8, or an error when it is not valid
    /// UTF-8.
    pub fn reverse(input: &[u8]) -> (r: Result<&str, Utf8Error>)
        ensures
            r is Ok <==> valid_utf8(input@),
            r matches Ok(s) ==> s@ == decode_utf8(input@),
    {
        let r = str_from_utf8(input);
        proof {
            if let Ok(s) = r {
                vstd::utf8::encode_utf8_decode_utf8(s@);
            }
        }
        r
    }
}

} // verus!

verus! {

/// What `encode` makes of ASCII text, `reverse` turns back into the same text.
pub proof fn lemma_encode_reverse(s: Seq<char>)
    requires
        vstd::utf8::is_ascii_chars(s),
    ensures
        valid_utf8(ascii_bytes(s)),
        decode_utf8(ascii_bytes(s)) == s,
{
    vstd::utf8::is_ascii_chars_encode_utf8(s);
    assert(ascii_bytes(s) =~= vstd::utf8::encode_utf8(s));
    vstd::utf8::encode_utf8_valid_utf8(s);
    vstd::utf8::encode_utf8_decode_utf8(s);
}

} // verus!
