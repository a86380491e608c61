//! The one thing that the depth query needs of a CIGAR: how many bases of
//! the reference an alignment spans.

use crate::bytes::{le_u32, read_u32};
use vstd::prelude::*;

verus! {

/// The operation consumes bases of the reference: a match, a deletion, a
/// skip, a sequence match or a sequence mismatch.
pub open spec fn consumes_reference(op: int) -> bool {
    op == 0 || op == 2 || op == 3 || op == 7 || op == 8
}

/// Number of reference bases that one packed operation spans. The low
/// four bits of the word are the operation, the rest is its length.
pub open spec fn op_coverage(word: int) -> int {
    if consumes_reference(word % 16) {
        word / 16
    } else {
        0
    }
}

/// Number of reference bases that the first `n` operations of a packed
/// CIGAR span.
pub open spec fn coverage_upto(cigar: Seq<u8>, n: int) -> int
    decreases n,
{
    if n <= 0 {
        0
    } else {
        coverage_upto(cigar, n - 1) + op_coverage(le_u32(cigar.subrange(4 * (n - 1), 4 * n)))
    }
}

/// Number of reference bases that a packed CIGAR spans: the sum of the
/// lengths of its operations that consume the reference. Bytes after the
/// last whole operation do not count.
pub open spec fn coverage_of(cigar: Seq<u8>) -> int {
    coverage_upto(cigar, cigar.len() as int / 4)
}

/// Each operation spans fewer than `2^28` bases.
pub proof fn lemma_coverage_bound(cigar: Seq<u8>, n: int)
    requires
        0 <= n,
        4 * n <= cigar.len(),
    ensures
        0 <= coverage_upto(cigar, n) <= n * 0x0fff_ffff,
    decreases n,
{
    if n > 0 {
        lemma_coverage_bound(cigar, n - 1);
        let word = cigar.subrange(4 * (n - 1), 4 * n);
        assert(0 <= le_u32(word) <= 0xffff_ffff);
    }
}

/// The number of reference bases that the alignment with the packed CIGAR
/// `cigar` spans.
pub fn base_coverage(cigar: &[u8]) -> (cov: u64)
    requires
        cigar@.len() <= u32::MAX,
    ensures
        cov == coverage_of(cigar@),
{
    let ops: usize = cigar.len() / 4;
    let mut cov: u64 = 0;
    let mut i: usize = 0;
    while i < ops
        invariant
            i <= ops,
            ops == cigar@.len() / 4,
            cigar@.len() <= u32::MAX,
            cov == coverage_upto(cigar@, i as int),
            cov <= i * 0x0fff_ffff,
        decreases ops - i,
    {
        let word: u32 = read_u32(vstd::slice::slice_subrange(cigar, 4 * i, 4 * i + 4));
        let op: u32 = word % 16;
        proof {
            lemma_coverage_bound(cigar@, i + 1);
        }
        if op == 0 || op == 2 || op == 3 || op == 7 || op == 8 {
            cov = cov + (word / 16) as u64;
        }
        i += 1;
    }
    cov
}

} // verus!
