//! Verified SHA-256 and SHA-512 message digests.
//!
//! Each algorithm offers the fixed-point block transform over an
//! eight-word chaining state together with an incremental hasher that
//! buffers partial blocks and performs length-based padding when the
//! digest is produced.  The portable scalar transform is the algorithm
//! of record; an accelerated backend may only be selected where the
//! processor reports the matching instruction extension.

use vstd::prelude::*;

mod arith;
pub mod sha256;
pub mod sha512;

verus! {

/// Which implementation of the block compression transform a low-level
/// call should run: the portable scalar code, or a hardware-accelerated
/// sequence of CPU cryptographic instructions.
#[derive(Clone, Copy, Debug, PartialEq, Eq, Structural)]
pub enum Backend {
    Generic,
    Hardware,
}

/// The one failure this library can report: the accelerated backend was
/// requested but the running processor does not expose the required
/// instruction extension, so the transform refuses to execute.
#[derive(Clone, Copy, Debug, PartialEq, Eq, Structural)]
pub enum HashError {
    UnsupportedHardware,
}

/// Whether an accelerated compression backend is available in this
/// process.  This build of the library carries only the portable scalar
/// transform — it links no CPU cryptographic instructions — so the
/// answer is always `false`; a caller that owns its own accelerated
/// backend performs its own feature detection and passes the result to
/// the block-compression entry points.
pub fn hardware_support_available() -> (b: bool)
    ensures
        !b,
{
    false
}

/// Chunking invariance at the stream level: extending a stream by two
/// chunks in order is the same as extending it by their concatenation
/// in one piece.  With `update`'s contract — the absorbed stream grows
/// by exactly the bytes of each call — and `finalize`'s — the digest
/// is a function of the absorbed stream alone — the digest of an
/// input does not depend on how it is partitioned across calls.
pub proof fn lemma_chunked_absorb(s: Seq<u8>, c1: Seq<u8>, c2: Seq<u8>)
    ensures
        (s + c1) + c2 == s + (c1 + c2),
        sha256::spec_sha256((s + c1) + c2) == sha256::spec_sha256(s + (c1 + c2)),
        sha512::spec_sha512((s + c1) + c2) == sha512::spec_sha512(s + (c1 + c2)),
{
    assert((s + c1) + c2 =~= s + (c1 + c2));
}

} // verus!
