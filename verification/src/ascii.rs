//! ASCII byte strings and the Rust strings they denote.  Tokens and URLs are
//! built as ASCII bytes and cross into `String` exactly once, here.

use vstd::prelude::*;
use vstd::utf8::encode_utf8;
use vstd::utf8::is_ascii_chars;
use vstd::utf8::is_ascii_chars_encode_utf8;

verus! {

/// Every byte is in the ASCII range.
pub open spec fn ascii_bytes(v: Seq<u8>) -> bool {
    forall|i: int| 0 <= i < v.len() ==> #[trigger] v[i] < 128
}

/// The characters denoted by a sequence of ASCII bytes.
pub open spec fn ascii_chars_of(v: Seq<u8>) -> Seq<char> {
    v.map_values(|b: u8| b as char)
}

/// For ASCII bytes, the UTF-8 encoding of the denoted characters is the byte
/// sequence itself.
pub proof fn lemma_ascii_chars_bytes(v: Seq<u8>)
    requires
        ascii_bytes(v),
    ensures
        is_ascii_chars(ascii_chars_of(v)),
        encode_utf8(ascii_chars_of(v)) == v,
{
    let cs = ascii_chars_of(v);
    assert(is_ascii_chars(cs)) by {
        assert forall|i: int| 0 <= i < cs.len() implies '\0' <= #[trigger] cs[i] <= '\u{7f}' by {
            assert(cs[i] == v[i] as char);
        }
    }
    is_ascii_chars_encode_utf8(cs);
    assert(encode_utf8(cs) =~= v) by {
        assert forall|i: int| 0 <= i < v.len() implies #[trigger] encode_utf8(cs)[i] == v[i] by {
            assert(cs[i] as u8 == encode_utf8(cs)[i]);
            assert(cs[i] == v[i] as char);
        }
    }
}

/// Relies on `String::from_utf8_lossy`: valid UTF-8, which ASCII is, decodes
/// to the string of the same characters.
#[verifier::external_body]
pub fn ascii_to_string(v: &Vec<u8>) -> (s: String)
    requires
        ascii_bytes(v@),
    ensures
        s@ == ascii_chars_of(v@),
{
    String::from_utf8_lossy(v.as_slice()).into_owned()
}

} // verus!
