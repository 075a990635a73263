//! The room id of a search term.
use vstd::prelude::*;

verus! {

/// The SHA-256 digest of a byte sequence.
pub uninterp spec fn sha256_of(data: Seq<u8>) -> Seq<u8>;

/// Relies on `ring::digest` with `SHA256`: the digest is the 32 bytes of
/// SHA-256 over the input, a function of the input bytes alone.
#[verifier::external_body]
fn sha256(data: &[u8]) -> (r: Vec<u8>)
    ensures
        r@ == sha256_of(data@),
        r@.len() == 32,
{
    let mut context = ring::digest::Context::new(&ring::digest::SHA256);
    context.update(data);
    context.finish().as_ref().to_vec()
}

/// The first four bytes of `b` read as a little-endian two's-complement
/// 32-bit integer.
pub open spec fn le_i32_of(b: Seq<u8>) -> int
    recommends
        b.len() >= 4,
{
    let u = b[0] as int + 256 * (b[1] as int) + 65536 * (b[2] as int) + 16777216 * (b[3] as int);
    if u < 0x8000_0000 {
        u
    } else {
        u - 0x1_0000_0000
    }
}

/// The room id of a term: the first four bytes of SHA-256 over the term's
/// UTF-8 bytes, read little-endian as a signed 32-bit integer.
pub open spec fn channel_id_of(term: Seq<char>) -> int {
    le_i32_of(sha256_of(vstd::utf8::encode_utf8(term)))
}

fn read_i32_le(b0: u8, b1: u8, b2: u8, b3: u8) -> (r: i32)
    ensures
        r as int == le_i32_of(seq![b0, b1, b2, b3]),
{
    let u: u32 = b0 as u32 + 256 * (b1 as u32) + 65536 * (b2 as u32) + 16777216 * (b3 as u32);
    if u < 0x8000_0000 {
        u as i32
    } else {
        ((u - 0x8000_0000) as i32) + i32::MIN
    }
}

/// The room id of `term`.
pub fn get_channel_id(term: &str) -> (r: i32)
    ensures
        r as int == channel_id_of(term@),
{
    let digest = sha256(term.as_bytes());
    read_i32_le(digest[0], digest[1], digest[2], digest[3])
}

/// Equal terms get equal room ids: the id depends on the term's characters
/// alone, so every instance, gateway and client computes the same one.
pub proof fn lemma_channel_id_deterministic(a: Seq<char>, b: Seq<char>)
    requires
        a == b,
    ensures
        channel_id_of(a) == channel_id_of(b),
{
}

} // verus!
