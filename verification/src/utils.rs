//! Small helpers shared across the crate.

use vstd::prelude::*;

verus! {

/// Relies on std::time::SystemTime: microseconds between the Unix epoch and
/// now, zero if the clock stands before the epoch. Nothing can be promised
/// of the clock's reading.
#[verifier::external_body]
fn system_time_micros() -> u64 {
    match std::time::SystemTime::now().duration_since(std::time::SystemTime::UNIX_EPOCH) {
        Ok(elapsed) => elapsed.as_micros() as u64,
        Err(_) => 0,
    }
}

/// Generate a Unix timestamp in Micros.
pub fn get_timestamp() -> u64 {
    system_time_micros()
}

/// A sequence of bytes below 128 is valid UTF-8.
pub proof fn lemma_ascii_decode(b: Seq<u8>)
    requires
        forall|i: int| 0 <= i < b.len() ==> #[trigger] b[i] < 128,
    ensures
        vstd::utf8::valid_utf8(b),
    decreases b.len(),
{
    if b.len() != 0 {
        let b0 = b[0];
        assert(b0 & 0x7f == b0 && b0 & 0x7f < 128) by (bit_vector)
            requires
                b0 < 128,
        ;
        assert(vstd::utf8::is_leading_byte_width_1(b[0]));
        assert(vstd::utf8::valid_first_scalar(b));
        assert(vstd::utf8::length_of_first_scalar(b) == 1);
        assert(vstd::utf8::pop_first_scalar(b) =~= b.drop_first());
        lemma_ascii_decode(b.drop_first());
    }
}

/// Copy a string.
pub fn clone_string(s: &String) -> (r: String)
    ensures
        r@ == s@,
{
    s.as_str().to_owned()
}

/// Whether two byte slices hold the same bytes.
pub fn bytes_eq(a: &[u8], b: &[u8]) -> (r: bool)
    ensures
        r == (a@ == b@),
{
    let n: usize = a.len();
    if n != b.len() {
        proof {
            assert(a@.len() != b@.len());
        }
        return false;
    }
    let mut i: usize = 0;
    while i < n
        invariant
            i <= n,
            n == a@.len(),
            n == b@.len(),
            forall|j: int| 0 <= j < i ==> a@[j] == b@[j],
        decreases n - i,
    {
        if a[i] != b[i] {
            return false;
        }
        i = i + 1;
    }
    proof {
        assert(a@ =~= b@);
    }
    true
}

/// Whether two pieces of text read the same.
pub fn str_eq(a: &str, b: &str) -> (r: bool)
    ensures
        r == (a@ == b@),
{
    let r = bytes_eq(a.as_bytes(), b.as_bytes());
    proof {
        vstd::utf8::encode_utf8_decode_utf8(a@);
        vstd::utf8::encode_utf8_decode_utf8(b@);
    }
    r
}

/// Relies on String::from_utf8: `Ok` exactly on valid UTF-8, and the string's
/// characters are the decoding of the bytes.
#[verifier::external_body]
pub fn string_from_utf8(v: Vec<u8>) -> (r: Option<String>)
    ensures
        match r {
            Some(s) => vstd::utf8::valid_utf8(v@) && s@ == vstd::utf8::decode_utf8(v@),
            None => !vstd::utf8::valid_utf8(v@),
        },
{
    String::from_utf8(v).ok()
}

} // verus!
