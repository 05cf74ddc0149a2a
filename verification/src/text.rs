//! Bytes and characters: the ASCII fragment of UTF-8, and the one
//! byte-to-string conversion the library takes on trust.

use vstd::prelude::*;
use vstd::utf8::{decode_utf8, valid_utf8};

verus! {

/// The characters an ASCII byte run denotes, one per byte.
pub open spec fn ascii_chars(b: Seq<u8>) -> Seq<char> {
    b.map_values(|x: u8| x as char)
}

/// Every byte of the run is ASCII.
pub open spec fn all_ascii(b: Seq<u8>) -> bool {
    forall|i: int| 0 <= i < b.len() ==> b[i] < 128
}

/// An all-ASCII byte run is valid UTF-8 and decodes byte for byte.
pub proof fn lemma_ascii_decode(b: Seq<u8>)
    requires
        all_ascii(b),
    ensures
        valid_utf8(b),
        decode_utf8(b) == ascii_chars(b),
    decreases b.len(),
{
    if b.len() == 0 {
        assert(decode_utf8(b) =~= ascii_chars(b));
    } else {
        assert(vstd::utf8::is_leading_byte_width_1(b[0]));
        assert(vstd::utf8::valid_first_scalar(b));
        let rest = vstd::utf8::pop_first_scalar(b);
        assert(rest =~= b.skip(1));
        assert(all_ascii(rest));
        lemma_ascii_decode(rest);
        assert(valid_utf8(b));
        let b0 = b[0];
        assert((b0 & 0x7F) == b0) by (bit_vector)
            requires
                b0 < 128,
        ;
        assert(vstd::utf8::decode_first_scalar(b) == b[0] as u32);
        assert((b[0] as u32) as char == b[0] as char) by {
            vstd::utf8::char_u32_cast(b[0] as char, b[0] as u32);
        }
        assert(decode_utf8(b) =~= ascii_chars(b));
    }
}

/// ASCII runs stay ASCII under concatenation.
pub proof fn lemma_all_ascii_concat(a: Seq<u8>, b: Seq<u8>)
    requires
        all_ascii(a),
        all_ascii(b),
    ensures
        all_ascii(a + b),
{
    assert forall|i: int| 0 <= i < (a + b).len() implies (a + b)[i] < 128 by {
        if i < a.len() {
            assert((a + b)[i] == a[i]);
        } else {
            assert((a + b)[i] == b[i - a.len()]);
        }
    }
}

/// The byte runs a list of byte vectors denotes.
pub open spec fn byte_runs(s: Seq<Vec<u8>>) -> Seq<Seq<u8>> {
    s.map_values(|v: Vec<u8>| v@)
}

pub proof fn lemma_byte_runs_push(s: Seq<Vec<u8>>, v: Vec<u8>)
    ensures
        byte_runs(s.push(v)) == byte_runs(s).push(v@),
{
    assert(byte_runs(s.push(v)) =~= byte_runs(s).push(v@));
}

pub proof fn lemma_byte_runs_drop_first(s: Seq<Vec<u8>>)
    requires
        s.len() > 0,
    ensures
        byte_runs(s.drop_first()) == byte_runs(s).drop_first(),
{
    assert(byte_runs(s.drop_first()) =~= byte_runs(s).drop_first());
}

/// What `String::from_utf8_lossy` yields on an arbitrary byte run: a
/// fixed function of the bytes alone.
pub uninterp spec fn lossy_chars(b: Seq<u8>) -> Seq<char>;

/// Relies on `String::from_utf8_lossy`: the result depends on the bytes
/// alone, and a valid UTF-8 run decodes to exactly its scalars, with no
/// replacement character introduced.
#[verifier::external_body]
pub fn lossy_string(bytes: &[u8]) -> (r: String)
    ensures
        r@ == lossy_chars(bytes@),
        valid_utf8(bytes@) ==> r@ == decode_utf8(bytes@),
{
    String::from_utf8_lossy(bytes).into_owned()
}

} // verus!
