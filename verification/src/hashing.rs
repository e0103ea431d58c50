use vstd::prelude::*;

verus! {

/// The 32-byte BLAKE2b digest of a byte sequence, a function of the
/// input bytes alone. It is only named here, never written out: the
/// trusted wrapper below ties it to the real implementation.
pub uninterp spec fn blake2b_of(input: Seq<u8>) -> Seq<u8>;

/// The hash stored in a parent node: the digest of its two children's
/// hashes laid end to end, left first.
pub open spec fn combine_hash(l: Seq<u8>, r: Seq<u8>) -> Seq<u8> {
    blake2b_of(l + r)
}

/// Relies on blake2b_simd::Params::hash with hash_length(32): the
/// 32-byte-form BLAKE2b digest of the input, determined by the input
/// bytes alone.
#[verifier::external_body]
fn blake2b32(input: &[u8]) -> (out: [u8; 32])
    ensures
        out@ == blake2b_of(input@),
{
    let digest = blake2b_simd::Params::new().hash_length(32).hash(input);
    let mut out = [0u8; 32];
    out.copy_from_slice(digest.as_bytes());
    out
}

/// Hash two 32-byte child hashes into their parent's hash.
pub fn combine(l: &[u8; 32], r: &[u8; 32]) -> (out: [u8; 32])
    ensures
        out@ == combine_hash(l@, r@),
{
    let mut buf: Vec<u8> = Vec::new();
    let mut i: usize = 0;
    while i < 32
        invariant
            0 <= i <= 32,
            buf@ =~= l@.subrange(0, i as int),
        decreases 32 - i,
    {
        buf.push(l[i]);
        i = i + 1;
    }
    let mut j: usize = 0;
    while j < 32
        invariant
            0 <= j <= 32,
            buf@ =~= l@ + r@.subrange(0, j as int),
        decreases 32 - j,
    {
        buf.push(r[j]);
        j = j + 1;
    }
    proof {
        assert(buf@ =~= l@ + r@);
    }
    blake2b32(buf.as_slice())
}

} // verus!
