//! Bytes as text.

use vstd::prelude::*;

verus! {

/// The character that stands for six bits.
pub open spec fn base64_char(v: nat) -> char {
    if v < 26 {
        (65 + v) as char
    } else if v < 52 {
        (71 + v) as char
    } else if v < 62 {
        ((v - 4) as nat) as char
    } else if v == 62 {
        '+'
    } else {
        '/'
    }
}

/// Bytes as text: four characters for three bytes, and `=` where bytes are lacking
/// at the end.
pub open spec fn base64_text(b: Seq<u8>) -> Seq<char>
    decreases b.len(),
{
    if b.len() == 0 {
        Seq::empty()
    } else {
        let x = b[0] as nat;
        let y = if b.len() > 1 {
            b[1] as nat
        } else {
            0
        };
        let z = if b.len() > 2 {
            b[2] as nat
        } else {
            0
        };
        let block = seq![
            base64_char(x / 4),
            base64_char(x % 4 * 16 + y / 16),
            if b.len() > 1 {
                base64_char(y % 16 * 4 + z / 64)
            } else {
                '='
            },
            if b.len() > 2 {
                base64_char(z % 64)
            } else {
                '='
            },
        ];
        if b.len() <= 3 {
            block
        } else {
            block + base64_text(b.skip(3))
        }
    }
}

/// Bytes as text, with `encode` of the standard engine of the base64 crate: the
/// alphabet of RFC 4648 with padding.
#[verifier::external_body]
pub(crate) fn encode_base64(data: &[u8]) -> (r: String)
    requires
        data@.len() <= usize::MAX / 4,
    ensures
        r@ == base64_text(data@),
{
    base64::Engine::encode(&base64::engine::general_purpose::STANDARD, data)
}

/// The bytes that a text stands for; nothing where it stands for none.
pub uninterp spec fn base64_bytes(text: Seq<char>) -> Option<Seq<u8>>;

/// The bytes that a text stands for, with `decode` of the standard engine of the base64
/// crate: a function of the text. It undoes `encode`.
#[verifier::external_body]
pub(crate) fn decode_base64(text: &str) -> (r: Option<Vec<u8>>)
    ensures
        match r {
            Some(b) => base64_bytes(text@) == Some(b@),
            None => base64_bytes(text@) is None,
        },
        forall|b: Seq<u8>| text@ == #[trigger] base64_text(b) ==> r is Some && r->0@ == b,
{
    base64::Engine::decode(&base64::engine::general_purpose::STANDARD, text).ok()
}

} // verus!
