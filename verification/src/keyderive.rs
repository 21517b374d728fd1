//! Recovery of key-stream bytes from ciphertexts that share one key stream.
//!
//! Two ciphertexts encrypted under the same key stream XOR to the XOR of
//! their plaintexts. When that XOR lands in the ASCII letter ranges, one of
//! the two plaintext bytes was very likely a space (0x20), so XOR-ing the
//! ciphertext byte with 0x20 yields a candidate key byte. The derivation
//! walks every pair of ciphertexts in ascending order and keeps, for each
//! position, the candidate of the first pair that gives such evidence,
//! always taken from the pair's lower-indexed ciphertext.

use vstd::prelude::*;
use vstd::pervasive::VecAdditionalExecFns;
use crate::xor::xor_seq;
use crate::xor::xor_bytes;

verus! {

/// A byte in the ASCII range of an uppercase or lowercase letter.
pub open spec fn is_letter(b: u8) -> bool {
    (0x41 <= b && b <= 0x5a) || (0x61 <= b && b <= 0x7a)
}

/// The pair of ciphertexts `(i, j)` gives evidence for the key byte at
/// position `k`: both reach past `k`, and their XOR at `k` lands in a letter
/// range — the sign that one of the two plaintexts holds a space there.
pub open spec fn hit(cts: Seq<Seq<u8>>, i: int, j: int, k: int) -> bool {
    &&& 0 <= i < j < cts.len()
    &&& 0 <= k < cts[i].len()
    &&& k < cts[j].len()
    &&& is_letter(cts[i][k] ^ cts[j][k])
}

/// Pair `(i1, j1)` comes before pair `(i2, j2)` in the order the derivation
/// walks them: ascending first index, then ascending second index.
pub open spec fn pair_before(i1: int, j1: int, i2: int, j2: int) -> bool {
    i1 < i2 || (i1 == i2 && j1 < j2)
}

/// `(i, j)` is the first pair, in derivation order, that gives evidence for
/// the key byte at position `k`.
pub open spec fn first_hit(cts: Seq<Seq<u8>>, i: int, j: int, k: int) -> bool {
    &&& hit(cts, i, j, k)
    &&& forall|i2: int, j2: int| #[trigger] hit(cts, i2, j2, k) ==> !pair_before(i2, j2, i, j)
}

/// Length of the longest ciphertext; zero for an empty collection.
pub open spec fn max_ct_len(cts: Seq<Seq<u8>>) -> int
    decreases cts.len(),
{
    if cts.len() == 0 {
        0
    } else if max_ct_len(cts.drop_last()) <= cts.last().len() {
        cts.last().len() as int
    } else {
        max_ct_len(cts.drop_last())
    }
}

/// What derivation returns for `cts`: `key` and `known` both have the length
/// of the longest ciphertext; a position is known exactly when some pair of
/// ciphertexts gives evidence for it; a known position holds the candidate
/// of the first such pair, taken from its lower-indexed ciphertext; an
/// unknown position holds zero.
pub open spec fn derive_post(cts: Seq<Seq<u8>>, key: Seq<u8>, known: Seq<bool>) -> bool {
    &&& key.len() == max_ct_len(cts)
    &&& known.len() == key.len()
    &&& forall|k: int|
        0 <= k < known.len() ==> (#[trigger] known[k] <==> exists|i: int, j: int|
            hit(cts, i, j, k))
    &&& forall|k: int|
        0 <= k < known.len() && #[trigger] known[k] ==> exists|i: int, j: int|
            #[trigger] first_hit(cts, i, j, k) && key[k] == (cts[i][k] ^ 0x20)
    &&& forall|k: int| 0 <= k < known.len() && !(#[trigger] known[k]) ==> key[k] == 0
}

/// The pair-offset event `(i2, j2, p)` has already been handled once the
/// derivation stands at pair `(bi, bj)`, offset `bk`.
spec fn processed(i2: int, j2: int, p: int, bi: int, bj: int, bk: int) -> bool {
    i2 < bi || (i2 == bi && (j2 < bj || (j2 == bj && p < bk)))
}

/// Loop invariant of the derivation: `key` and `known` reflect exactly the
/// events handled so far.
spec fn derive_inv(
    cts: Seq<Seq<u8>>,
    key: Seq<u8>,
    known: Seq<bool>,
    bi: int,
    bj: int,
    bk: int,
) -> bool {
    &&& key.len() == max_ct_len(cts)
    &&& known.len() == key.len()
    &&& forall|p: int|
        0 <= p < known.len() ==> (#[trigger] known[p] <==> exists|i2: int, j2: int|
            #[trigger] hit(cts, i2, j2, p) && processed(i2, j2, p, bi, bj, bk))
    &&& forall|p: int|
        0 <= p < known.len() && #[trigger] known[p] ==> exists|i2: int, j2: int|
            #[trigger] first_hit(cts, i2, j2, p) && processed(i2, j2, p, bi, bj, bk) && key[p]
                == (cts[i2][p] ^ 0x20)
    &&& forall|p: int| 0 <= p < known.len() && !(#[trigger] known[p]) ==> key[p] == 0
}

/// Every ciphertext fits inside the longest one.
proof fn lemma_max_ct_len_ge(cts: Seq<Seq<u8>>, i: int)
    requires
        0 <= i < cts.len(),
    ensures
        cts[i].len() <= max_ct_len(cts),
    decreases cts.len(),
{
    if i < cts.len() - 1 {
        lemma_max_ct_len_ge(cts.drop_last(), i);
        assert(cts.drop_last()[i] == cts[i]);
    }
}

/// Moving the border does not change the invariant as long as the same
/// evidence events lie behind it.
proof fn lemma_border_equiv(
    cts: Seq<Seq<u8>>,
    key: Seq<u8>,
    known: Seq<bool>,
    bi1: int,
    bj1: int,
    bk1: int,
    bi2: int,
    bj2: int,
    bk2: int,
)
    requires
        derive_inv(cts, key, known, bi1, bj1, bk1),
        forall|a: int, b: int, p: int| #[trigger] hit(cts, a, b, p) ==> (processed(
            a,
            b,
            p,
            bi1,
            bj1,
            bk1,
        ) <==> processed(a, b, p, bi2, bj2, bk2)),
    ensures
        derive_inv(cts, key, known, bi2, bj2, bk2),
{
    assert forall|p: int| 0 <= p < known.len() implies (#[trigger] known[p]
        <==> exists|i2: int, j2: int| #[trigger] hit(cts, i2, j2, p) && processed(
        i2,
        j2,
        p,
        bi2,
        bj2,
        bk2,
    )) by {
        if known[p] {
            let (a, b) = choose|a: int, b: int|
                #[trigger] hit(cts, a, b, p) && processed(a, b, p, bi1, bj1, bk1);
            assert(hit(cts, a, b, p) && processed(a, b, p, bi2, bj2, bk2));
        }
        if exists|a: int, b: int| #[trigger] hit(cts, a, b, p) && processed(a, b, p, bi2, bj2, bk2) {
            let (a, b) = choose|a: int, b: int|
                #[trigger] hit(cts, a, b, p) && processed(a, b, p, bi2, bj2, bk2);
            assert(hit(cts, a, b, p) && processed(a, b, p, bi1, bj1, bk1));
        }
    }
    assert forall|p: int| 0 <= p < known.len() && #[trigger] known[p] implies exists|
        i2: int,
        j2: int,
    |
        #[trigger] first_hit(cts, i2, j2, p) && processed(i2, j2, p, bi2, bj2, bk2) && key[p] == (
        cts[i2][p] ^ 0x20) by {
        let (a, b) = choose|a: int, b: int|
            #[trigger] first_hit(cts, a, b, p) && processed(a, b, p, bi1, bj1, bk1) && key[p] == (
            cts[a][p] ^ 0x20);
        assert(first_hit(cts, a, b, p) && processed(a, b, p, bi2, bj2, bk2) && key[p] == (
        cts[a][p] ^ 0x20));
    }
}

/// An event that gives no evidence, or whose position is already known,
/// leaves the result untouched.
proof fn lemma_step_frame(
    cts: Seq<Seq<u8>>,
    key: Seq<u8>,
    known: Seq<bool>,
    bi: int,
    bj: int,
    bk: int,
)
    requires
        derive_inv(cts, key, known, bi, bj, bk),
        hit(cts, bi, bj, bk) ==> (0 <= bk < known.len() && known[bk]),
    ensures
        derive_inv(cts, key, known, bi, bj, bk + 1),
{
    assert forall|p: int| 0 <= p < known.len() implies (#[trigger] known[p]
        <==> exists|i2: int, j2: int| #[trigger] hit(cts, i2, j2, p) && processed(
        i2,
        j2,
        p,
        bi,
        bj,
        bk + 1,
    )) by {
        if known[p] {
            let (a, b) = choose|a: int, b: int|
                #[trigger] hit(cts, a, b, p) && processed(a, b, p, bi, bj, bk);
            assert(hit(cts, a, b, p) && processed(a, b, p, bi, bj, bk + 1));
        }
        if exists|a: int, b: int| #[trigger] hit(cts, a, b, p) && processed(a, b, p, bi, bj, bk + 1) {
            let (a, b) = choose|a: int, b: int|
                #[trigger] hit(cts, a, b, p) && processed(a, b, p, bi, bj, bk + 1);
            if a == bi && b == bj && p == bk {
                assert(known[p]);
            } else {
                assert(processed(a, b, p, bi, bj, bk));
            }
        }
    }
    assert forall|p: int| 0 <= p < known.len() && #[trigger] known[p] implies exists|
        i2: int,
        j2: int,
    |
        #[trigger] first_hit(cts, i2, j2, p) && processed(i2, j2, p, bi, bj, bk + 1) && key[p] == (
        cts[i2][p] ^ 0x20) by {
        let (a, b) = choose|a: int, b: int|
            #[trigger] first_hit(cts, a, b, p) && processed(a, b, p, bi, bj, bk) && key[p] == (
            cts[a][p] ^ 0x20);
        assert(first_hit(cts, a, b, p) && processed(a, b, p, bi, bj, bk + 1) && key[p] == (
        cts[a][p] ^ 0x20));
    }
}

/// An event that gives evidence for a position not yet known makes its pair
/// the first hit for that position and writes the candidate from the pair's
/// lower-indexed ciphertext.
proof fn lemma_step_write(
    cts: Seq<Seq<u8>>,
    key: Seq<u8>,
    known: Seq<bool>,
    bi: int,
    bj: int,
    bk: int,
)
    requires
        derive_inv(cts, key, known, bi, bj, bk),
        hit(cts, bi, bj, bk),
        0 <= bk < known.len(),
        !known[bk],
    ensures
        first_hit(cts, bi, bj, bk),
        derive_inv(
            cts,
            key.update(bk, (cts[bi][bk] ^ 0x20) as u8),
            known.update(bk, true),
            bi,
            bj,
            bk + 1,
        ),
{
    assert forall|a: int, b: int| #[trigger] hit(cts, a, b, bk) implies !pair_before(
        a,
        b,
        bi,
        bj,
    ) by {
        if pair_before(a, b, bi, bj) {
            assert(hit(cts, a, b, bk) && processed(a, b, bk, bi, bj, bk));
            assert(known[bk]);
        }
    }
    let key2 = key.update(bk, (cts[bi][bk] ^ 0x20) as u8);
    let known2 = known.update(bk, true);
    assert forall|p: int| 0 <= p < known2.len() implies (#[trigger] known2[p]
        <==> exists|i2: int, j2: int| #[trigger] hit(cts, i2, j2, p) && processed(
        i2,
        j2,
        p,
        bi,
        bj,
        bk + 1,
    )) by {
        if p == bk {
            assert(hit(cts, bi, bj, bk) && processed(bi, bj, bk, bi, bj, bk + 1));
        } else {
            if known2[p] {
                let (a, b) = choose|a: int, b: int|
                    #[trigger] hit(cts, a, b, p) && processed(a, b, p, bi, bj, bk);
                assert(hit(cts, a, b, p) && processed(a, b, p, bi, bj, bk + 1));
            }
            if exists|a: int, b: int| #[trigger] hit(cts, a, b, p) && processed(
                a,
                b,
                p,
                bi,
                bj,
                bk + 1,
            ) {
                let (a, b) = choose|a: int, b: int|
                    #[trigger] hit(cts, a, b, p) && processed(a, b, p, bi, bj, bk + 1);
                assert(processed(a, b, p, bi, bj, bk));
            }
        }
    }
    assert forall|p: int| 0 <= p < known2.len() && #[trigger] known2[p] implies exists|
        i2: int,
        j2: int,
    |
        #[trigger] first_hit(cts, i2, j2, p) && processed(i2, j2, p, bi, bj, bk + 1) && key2[p] == (
        cts[i2][p] ^ 0x20) by {
        if p == bk {
            assert(first_hit(cts, bi, bj, bk) && processed(bi, bj, bk, bi, bj, bk + 1) && key2[bk]
                == (cts[bi][bk] ^ 0x20));
        } else {
            let (a, b) = choose|a: int, b: int|
                #[trigger] first_hit(cts, a, b, p) && processed(a, b, p, bi, bj, bk) && key[p] == (
                cts[a][p] ^ 0x20);
            assert(first_hit(cts, a, b, p) && processed(a, b, p, bi, bj, bk + 1) && key2[p] == (
            cts[a][p] ^ 0x20));
        }
    }
}

/// The longest ciphertext of a collection is attained by one of its entries
/// whenever the collection gives a positive length at all.
proof fn lemma_max_ct_len_attained(cts: Seq<Seq<u8>>)
    ensures
        max_ct_len(cts) >= 0,
        max_ct_len(cts) == 0 || exists|w: int|
            0 <= w < cts.len() && #[trigger] cts[w].len() == max_ct_len(cts),
    decreases cts.len(),
{
    if cts.len() > 0 {
        lemma_max_ct_len_attained(cts.drop_last());
        if max_ct_len(cts.drop_last()) <= cts.last().len() {
            assert(cts[cts.len() - 1].len() == max_ct_len(cts));
        } else {
            let w = choose|w: int|
                0 <= w < cts.drop_last().len() && #[trigger] cts.drop_last()[w].len() == max_ct_len(
                    cts.drop_last(),
                );
            assert(cts[w].len() == max_ct_len(cts));
        }
    }
}

/// Derivation is a function of the input collection alone: any two results
/// that meet the derivation contract for the same collection are equal.
pub proof fn lemma_derive_deterministic(
    cts: Seq<Seq<u8>>,
    key1: Seq<u8>,
    known1: Seq<bool>,
    key2: Seq<u8>,
    known2: Seq<bool>,
)
    requires
        derive_post(cts, key1, known1),
        derive_post(cts, key2, known2),
    ensures
        key1 == key2,
        known1 == known2,
{
    assert forall|k: int| 0 <= k < known1.len() implies known1[k] == known2[k] by {}
    assert(known1 =~= known2);
    assert forall|k: int| 0 <= k < key1.len() implies key1[k] == key2[k] by {
        if known1[k] {
            let (a1, b1) = choose|a: int, b: int|
                #[trigger] first_hit(cts, a, b, k) && key1[k] == (cts[a][k] ^ 0x20);
            let (a2, b2) = choose|a: int, b: int|
                #[trigger] first_hit(cts, a, b, k) && key2[k] == (cts[a][k] ^ 0x20);
            assert(!pair_before(a1, b1, a2, b2) && !pair_before(a2, b2, a1, b1));
            assert(a1 == a2 && b1 == b2);
        }
    }
    assert(key1 =~= key2);
}

/// Every first-evidence pair at position `k` lies among the first `len1`
/// ciphertexts of the collection.
pub open spec fn first_hit_within(cts: Seq<Seq<u8>>, len1: int, k: int) -> bool {
    forall|a: int, b: int| #[trigger] first_hit(cts, a, b, k) ==> b < len1
}

/// Extending the collection with further ciphertexts can only add known
/// positions, never lose one; and a known position keeps its key byte
/// unless the first evidence pair for it now involves an added ciphertext.
pub proof fn lemma_derive_monotone(
    cts1: Seq<Seq<u8>>,
    cts2: Seq<Seq<u8>>,
    key1: Seq<u8>,
    known1: Seq<bool>,
    key2: Seq<u8>,
    known2: Seq<bool>,
)
    requires
        cts1.len() <= cts2.len(),
        forall|i: int| 0 <= i < cts1.len() ==> cts2[i] == cts1[i],
        derive_post(cts1, key1, known1),
        derive_post(cts2, key2, known2),
    ensures
        known1.len() <= known2.len(),
        forall|k: int| 0 <= k < known1.len() && #[trigger] known1[k] ==> known2[k],
        forall|k: int|
            0 <= k < known1.len() && #[trigger] known1[k] && first_hit_within(
                cts2,
                cts1.len() as int,
                k,
            ) ==> key2[k] == key1[k],
{
    lemma_max_ct_len_attained(cts1);
    lemma_max_ct_len_attained(cts2);
    if max_ct_len(cts1) > 0 {
        let w = choose|w: int|
            0 <= w < cts1.len() && #[trigger] cts1[w].len() == max_ct_len(cts1);
        lemma_max_ct_len_ge(cts2, w);
    }
    assert forall|k: int| 0 <= k < known1.len() && #[trigger] known1[k] implies known2[k] by {
        let (a, b) = choose|a: int, b: int| hit(cts1, a, b, k);
        assert(hit(cts2, a, b, k));
    }
    assert forall|k: int|
        0 <= k < known1.len() && #[trigger] known1[k] && first_hit_within(
            cts2,
            cts1.len() as int,
            k,
        ) implies key2[k] == key1[k] by {
        let (a1, b1) = choose|a: int, b: int|
            #[trigger] first_hit(cts1, a, b, k) && key1[k] == (cts1[a][k] ^ 0x20);
        assert(known2[k]);
        let (a2, b2) = choose|a: int, b: int|
            #[trigger] first_hit(cts2, a, b, k) && key2[k] == (cts2[a][k] ^ 0x20);
        assert(b2 < cts1.len());
        assert(hit(cts1, a2, b2, k));
        assert(!pair_before(a2, b2, a1, b1));
        assert(hit(cts2, a1, b1, k));
        assert(!pair_before(a1, b1, a2, b2));
        assert(a1 == a2 && b1 == b2);
    }
}

/// Relates the flat and the nested view of the ciphertext collection.
proof fn lemma_cts_deep_view(cts: &Vec<Vec<u8>>)
    ensures
        cts.deep_view().len() == cts@.len(),
        forall|i: int| 0 <= i < cts@.len() ==> #[trigger] cts.deep_view()[i] == cts@[i]@,
{
    assert forall|i: int| 0 <= i < cts@.len() implies #[trigger] cts.deep_view()[i]
        == cts@[i]@ by {
        assert(cts@[i].deep_view() =~= cts@[i]@);
    }
}

/// Walk every unordered pair of ciphertexts in ascending order of indices;
/// wherever their XOR lands in a letter range and the position is not yet
/// known, record the candidate key byte from the pair's lower-indexed
/// ciphertext and mark the position known. Returns the key stream (zero at
/// unknown positions) and the parallel flags of known positions.
#[verifier::loop_isolation(false)]
pub fn derive_key(cts: &Vec<Vec<u8>>) -> (r: (Vec<u8>, Vec<bool>))
    ensures
        derive_post(cts.deep_view(), r.0@, r.1@),
{
    let ghost ctsd: Seq<Seq<u8>> = cts.deep_view();
    proof {
        lemma_cts_deep_view(cts);
    }
    let n = cts.len();

    let mut max_len: usize = 0;
    let mut t: usize = 0;
    while t < n
        invariant
            t <= n,
            max_len == max_ct_len(ctsd.take(t as int)),
        decreases n - t,
    {
        proof {
            assert(ctsd.take(t + 1).drop_last() =~= ctsd.take(t as int));
            assert(ctsd.take(t + 1).last() == ctsd[t as int]);
        }
        let l = cts[t].len();
        if l > max_len {
            max_len = l;
        }
        t += 1;
    }
    proof {
        assert(ctsd.take(n as int) =~= ctsd);
    }

    let mut key: Vec<u8> = Vec::new();
    while key.len() < max_len
        invariant
            key@.len() <= max_len,
            forall|p: int| 0 <= p < key@.len() ==> key@[p] == 0u8,
        decreases max_len - key.len(),
    {
        key.push(0u8);
    }
    let mut known: Vec<bool> = Vec::new();
    while known.len() < max_len
        invariant
            known@.len() <= max_len,
            forall|p: int| 0 <= p < known@.len() ==> known@[p] == false,
        decreases max_len - known.len(),
    {
        known.push(false);
    }

    proof {
        assert forall|a: int, b: int, p: int| #[trigger] hit(ctsd, a, b, p) implies !processed(
            a,
            b,
            p,
            0,
            1,
            0,
        ) by {}
        assert forall|p: int| 0 <= p < known@.len() implies (#[trigger] known@[p] <==> exists|
            i2: int,
            j2: int,
        | #[trigger] hit(ctsd, i2, j2, p) && processed(i2, j2, p, 0, 1, 0)) by {
            if exists|a: int, b: int| #[trigger] hit(ctsd, a, b, p) && processed(a, b, p, 0, 1, 0) {
                let (a, b) = choose|a: int, b: int|
                    #[trigger] hit(ctsd, a, b, p) && processed(a, b, p, 0, 1, 0);
                assert(false);
            }
        }
        assert(derive_inv(ctsd, key@, known@, 0, 1, 0));
    }

    let mut i: usize = 0;
    while i < n
        invariant
            i <= n,
            derive_inv(ctsd, key@, known@, i as int, i + 1, 0),
        decreases n - i,
    {
        let mut j: usize = i + 1;
        while j < n
            invariant
                i < j <= n,
                derive_inv(ctsd, key@, known@, i as int, j as int, 0),
            decreases n - j,
        {
            let xr = xor_bytes(cts[i].as_slice(), cts[j].as_slice());
            let min_len = xr.len();
            let mut k: usize = 0;
            while k < min_len
                invariant
                    k <= min_len,
                    derive_inv(ctsd, key@, known@, i as int, j as int, k as int),
                decreases min_len - k,
            {
                let byte = xr[k];
                proof {
                    assert(xr@[k as int] == (ctsd[i as int][k as int] ^ ctsd[j as int][k as int]));
                }
                if (byte >= 0x41 && byte <= 0x5a) || (byte >= 0x61 && byte <= 0x7a) {
                    proof {
                        assert(hit(ctsd, i as int, j as int, k as int));
                        lemma_max_ct_len_ge(ctsd, i as int);
                    }
                    if !known[k] {
                        let kb = cts[i][k] ^ 0x20;
                        proof {
                            lemma_step_write(ctsd, key@, known@, i as int, j as int, k as int);
                        }
                        key.set(k, kb);
                        known.set(k, true);
                    } else {
                        proof {
                            lemma_step_frame(ctsd, key@, known@, i as int, j as int, k as int);
                        }
                    }
                } else {
                    proof {
                        assert(!hit(ctsd, i as int, j as int, k as int));
                        lemma_step_frame(ctsd, key@, known@, i as int, j as int, k as int);
                    }
                }
                k += 1;
            }
            proof {
                assert forall|a: int, b: int, p: int| #[trigger] hit(ctsd, a, b, p) implies (
                processed(a, b, p, i as int, j as int, min_len as int) <==> processed(
                    a,
                    b,
                    p,
                    i as int,
                    j + 1,
                    0,
                )) by {}
                lemma_border_equiv(
                    ctsd,
                    key@,
                    known@,
                    i as int,
                    j as int,
                    min_len as int,
                    i as int,
                    j + 1,
                    0,
                );
            }
            j += 1;
        }
        proof {
            assert forall|a: int, b: int, p: int| #[trigger] hit(ctsd, a, b, p) implies (processed(
                a,
                b,
                p,
                i as int,
                n as int,
                0,
            ) <==> processed(a, b, p, i + 1, i + 2, 0)) by {}
            lemma_border_equiv(ctsd, key@, known@, i as int, n as int, 0, i + 1, i + 2, 0);
        }
        i += 1;
    }

    proof {
        assert forall|p: int| 0 <= p < known@.len() implies (#[trigger] known@[p] <==> exists|
            i2: int,
            j2: int,
        | hit(ctsd, i2, j2, p)) by {
            if known@[p] {
                let (a, b) = choose|a: int, b: int|
                    #[trigger] hit(ctsd, a, b, p) && processed(a, b, p, n as int, n + 1, 0);
                assert(hit(ctsd, a, b, p));
            }
            if exists|a: int, b: int| hit(ctsd, a, b, p) {
                let (a, b) = choose|a: int, b: int| hit(ctsd, a, b, p);
                assert(hit(ctsd, a, b, p) && processed(a, b, p, n as int, n + 1, 0));
            }
        }
        assert forall|p: int| 0 <= p < known@.len() && #[trigger] known@[p] implies exists|
            i2: int,
            j2: int,
        | #[trigger] first_hit(ctsd, i2, j2, p) && key@[p] == (ctsd[i2][p] ^ 0x20) by {
            let (a, b) = choose|a: int, b: int|
                #[trigger] first_hit(ctsd, a, b, p) && processed(a, b, p, n as int, n + 1, 0)
                    && key@[p] == (ctsd[a][p] ^ 0x20);
            assert(first_hit(ctsd, a, b, p) && key@[p] == (ctsd[a][p] ^ 0x20));
        }
    }
    (key, known)
}

} // verus!
