//! SHA-256 through the `sha2` crate, and the byte encodings fed to it.

use vstd::prelude::*;
use sha2::Digest;

verus! {

/// The SHA-256 digest of a byte string.
pub uninterp spec fn sha256_spec(data: Seq<u8>) -> Seq<u8>;

/// Calls `sha2::Sha256::digest`. Trusted: the digest is SHA-256 of exactly
/// `data`, a function of the bytes alone, and is 32 bytes long. What the
/// digest is on given bytes is not stated.
#[verifier::external_body]
pub(crate) fn sha256(data: &[u8]) -> (digest: Vec<u8>)
    ensures
        digest@ == sha256_spec(data@),
        digest@.len() == 32,
{
    sha2::Sha256::digest(data).to_vec()
}

/// Little-endian bytes of the low `n` bytes of `v`.
pub open spec fn le_bytes(v: nat, n: nat) -> Seq<u8>
    decreases n,
{
    if n == 0 {
        seq![]
    } else {
        seq![(v % 256) as u8] + le_bytes(v / 256, (n - 1) as nat)
    }
}

pub proof fn lemma_le_bytes_len(v: nat, n: nat)
    ensures
        le_bytes(v, n).len() == n,
    decreases n,
{
    if n > 0 {
        lemma_le_bytes_len(v / 256, (n - 1) as nat);
    }
}

/// `v.to_le_bytes()`: the two's-complement bytes of an `i64`, least significant first.
pub fn i64_le_bytes(v: i64) -> (result: Vec<u8>)
    ensures
        result@ == le_bytes((v as u64) as nat, 8),
        result@.len() == 8,
{
    proof {
        lemma_le_bytes_len((v as u64) as nat, 8);
    }
    let mut out: Vec<u8> = Vec::new();
    let mut rest: u64 = v as u64;
    let mut k: usize = 0;
    while k < 8
        invariant
            k <= 8,
            le_bytes((v as u64) as nat, 8) == out@ + le_bytes(rest as nat, (8 - k) as nat),
        decreases 8 - k,
    {
        let byte = (rest % 256) as u8;
        proof {
            assert(le_bytes(rest as nat, (8 - k) as nat) == seq![byte] + le_bytes((rest / 256) as nat, (8 - k - 1) as nat));
            assert(out@ + (seq![byte] + le_bytes((rest / 256) as nat, (8 - k - 1) as nat)) =~= out@.push(byte) + le_bytes((rest / 256) as nat, (8 - k - 1) as nat));
        }
        out.push(byte);
        rest = rest / 256;
        k += 1;
    }
    assert(out@ + le_bytes(rest as nat, 0) =~= out@);
    out
}

} // verus!
