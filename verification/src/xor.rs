//! Element-wise XOR of byte sequences, truncated to the shorter input.

use vstd::prelude::*;

verus! {

/// Element-wise XOR of `a` and `b`, restricted to the prefix both cover:
/// the result has length `min(len(a), len(b))` and holds `a[i] ^ b[i]` at
/// each position.
pub open spec fn xor_seq(a: Seq<u8>, b: Seq<u8>) -> Seq<u8> {
    Seq::new(if a.len() <= b.len() { a.len() } else { b.len() }, |i: int| a[i] ^ b[i])
}

/// XOR the two inputs byte by byte; excess bytes of the longer input are
/// dropped, so the output is as long as the shorter input.
pub fn xor_bytes(a: &[u8], b: &[u8]) -> (r: Vec<u8>)
    ensures
        r@ == xor_seq(a@, b@),
{
    let n: usize = if a.len() <= b.len() { a.len() } else { b.len() };
    let mut r: Vec<u8> = Vec::new();
    let mut i: usize = 0;
    while i < n
        invariant
            i <= n,
            n <= a@.len(),
            n <= b@.len(),
            n == xor_seq(a@, b@).len(),
            r@ == xor_seq(a@, b@).take(i as int),
        decreases n - i,
    {
        let x = a[i] ^ b[i];
        r.push(x);
        proof {
            assert(r@ =~= xor_seq(a@, b@).take(i + 1));
        }
        i += 1;
    }
    proof {
        assert(r@ =~= xor_seq(a@, b@));
    }
    r
}

proof fn lemma_xor_cancel(x: u8, y: u8)
    ensures
        (x ^ y) ^ y == x,
{
    assert((x ^ y) ^ y == x) by (bit_vector);
}

/// XOR-ing with the same sequence twice gives back the first argument,
/// restricted to the prefix that both arguments cover.
pub proof fn lemma_xor_self_inverse(a: Seq<u8>, b: Seq<u8>)
    ensures
        xor_seq(xor_seq(a, b), b) == a.take(if a.len() <= b.len() { a.len() as int } else { b.len() as int }),
{
    let m: int = if a.len() <= b.len() { a.len() as int } else { b.len() as int };
    assert forall|i: int| 0 <= i < m implies xor_seq(xor_seq(a, b), b)[i] == a[i] by {
        lemma_xor_cancel(a[i], b[i]);
    }
    assert(xor_seq(xor_seq(a, b), b) =~= a.take(m));
}

} // verus!
