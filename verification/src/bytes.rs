//! Byte-level helpers shared by the wire codec: little-endian integer
//! encoding and the facts that make it invertible.

use vstd::prelude::*;

verus! {

/// 256 raised to `k`: the number of values a `k`-byte field can carry.
pub open spec fn pow256(k: nat) -> nat
    decreases k,
{
    if k == 0 {
        1
    } else {
        256 * pow256((k - 1) as nat)
    }
}

/// The little-endian encoding of `n` in exactly `k` bytes
/// (least significant byte first).
pub open spec fn le_bytes(n: nat, k: nat) -> Seq<u8>
    decreases k,
{
    if k == 0 {
        Seq::empty()
    } else {
        seq![(n % 256) as u8] + le_bytes(n / 256, (k - 1) as nat)
    }
}

/// The number a little-endian byte sequence denotes.
pub open spec fn le_value(s: Seq<u8>) -> nat
    decreases s.len(),
{
    if s.len() == 0 {
        0
    } else {
        (s[0] + 256 * le_value(s.drop_first())) as nat
    }
}

pub proof fn lemma_le_bytes_len(n: nat, k: nat)
    ensures
        le_bytes(n, k).len() == k,
    decreases k,
{
    if k > 0 {
        lemma_le_bytes_len(n / 256, (k - 1) as nat);
    }
}

pub proof fn lemma_pow256_monotone(a: nat, b: nat)
    requires
        a <= b,
    ensures
        pow256(a) <= pow256(b),
    decreases b,
{
    if a < b && b > 0 {
        lemma_pow256_monotone(a, (b - 1) as nat);
        assert(pow256(b) == 256 * pow256((b - 1) as nat));
    }
}

pub proof fn lemma_pow256_8()
    ensures
        pow256(8) == 0x1_0000_0000_0000_0000,
{
    reveal_with_fuel(pow256, 9);
}

/// A `k`-byte little-endian sequence denotes a value below `256^k`.
pub proof fn lemma_le_value_bound(s: Seq<u8>)
    ensures
        le_value(s) < pow256(s.len()),
    decreases s.len(),
{
    if s.len() > 0 {
        lemma_le_value_bound(s.drop_first());
        assert(le_value(s) == s[0] + 256 * le_value(s.drop_first()));
        assert(256 * le_value(s.drop_first()) <= 256 * (pow256((s.len() - 1) as nat) - 1))
            by (nonlinear_arith)
            requires
                le_value(s.drop_first()) <= pow256((s.len() - 1) as nat) - 1,
        ;
    }
}

/// Decoding the little-endian encoding of `n` gives `n` back.
pub proof fn lemma_le_round_trip(n: nat, k: nat)
    requires
        n < pow256(k),
    ensures
        le_value(le_bytes(n, k)) == n,
    decreases k,
{
    if k == 0 {
        assert(n == 0);
    } else {
        assert(n / 256 < pow256((k - 1) as nat)) by (nonlinear_arith)
            requires
                n < 256 * pow256((k - 1) as nat),
        ;
        lemma_le_round_trip(n / 256, (k - 1) as nat);
        let s = le_bytes(n, k);
        lemma_le_bytes_len(n / 256, (k - 1) as nat);
        assert(s.drop_first() =~= le_bytes(n / 256, (k - 1) as nat));
        assert(le_value(s) == (n % 256) + 256 * (n / 256));
        assert((n % 256) + 256 * (n / 256) == n) by (nonlinear_arith);
    }
}

/// Appends the 8-byte little-endian encoding of `x` to `out`.
pub fn push_u64_le(out: &mut Vec<u8>, x: u64)
    ensures
        final(out)@ == old(out)@ + le_bytes(x as nat, 8),
{
    let ghost base = out@;
    let mut v: u64 = x;
    let mut i: usize = 0;
    proof {
        assert(le_bytes(x as nat, 0) =~= Seq::<u8>::empty());
        assert(le_bytes(x as nat, 8) =~= le_bytes(x as nat, 0) + le_bytes(x as nat, 8));
        assert(out@ =~= base + le_bytes(x as nat, 0));
    }
    while i < 8
        invariant
            i <= 8,
            out@ == base + le_bytes(x as nat, i as nat),
            le_bytes(x as nat, 8) == le_bytes(x as nat, i as nat) + le_bytes(
                v as nat,
                (8 - i) as nat,
            ),
        decreases 8 - i,
    {
        let ghost vpre: nat = v as nat;
        let ghost ipre: nat = i as nat;
        let b: u8 = (v % 256) as u8;
        out.push(b);
        v = v / 256;
        i = i + 1;
        proof {
            assert(le_bytes(vpre, (8 - ipre) as nat) == seq![(vpre % 256) as u8] + le_bytes(
                vpre / 256,
                (8 - ipre - 1) as nat,
            ));
            lemma_le_bytes_concat_step(x as nat, vpre, ipre);
        }
    }
    proof {
        assert(le_bytes(v as nat, 0) =~= Seq::<u8>::empty());
        assert(le_bytes(x as nat, 8) =~= le_bytes(x as nat, 8) + Seq::<u8>::empty());
    }
}

/// One step of peeling a byte off the front of a little-endian tail:
/// if the first `i` bytes are already emitted and `v` is what remains,
/// emitting `v % 256` leaves `v / 256`.
proof fn lemma_le_bytes_concat_step(x: nat, v: nat, i: nat)
    requires
        i < 8,
        le_bytes(x, 8) == le_bytes(x, i) + le_bytes(v, (8 - i) as nat),
    ensures
        le_bytes(x, (i + 1) as nat) == le_bytes(x, i) + seq![(v % 256) as u8],
        le_bytes(x, 8) == le_bytes(x, (i + 1) as nat) + le_bytes(v / 256, (8 - i - 1) as nat),
{
    lemma_le_bytes_prefix(x, (i + 1) as nat, 8);
    lemma_le_bytes_prefix(x, i, 8);
    lemma_le_bytes_len(x, i);
    lemma_le_bytes_len(x, (i + 1) as nat);
    lemma_le_bytes_len(v, (8 - i) as nat);
    lemma_le_bytes_len(v / 256, (8 - i - 1) as nat);
    assert(le_bytes(v, (8 - i) as nat) == seq![(v % 256) as u8] + le_bytes(
        v / 256,
        (8 - i - 1) as nat,
    ));
    assert(le_bytes(x, (i + 1) as nat) =~= le_bytes(x, i) + seq![(v % 256) as u8]);
    assert(le_bytes(x, 8) =~= le_bytes(x, (i + 1) as nat) + le_bytes(v / 256, (8 - i - 1) as nat));
}

/// A shorter little-endian encoding of the same number is a prefix of a
/// longer one.
pub proof fn lemma_le_bytes_prefix(n: nat, a: nat, b: nat)
    requires
        a <= b,
    ensures
        le_bytes(n, a) =~= le_bytes(n, b).subrange(0, a as int),
    decreases a,
{
    lemma_le_bytes_len(n, a);
    lemma_le_bytes_len(n, b);
    if a > 0 {
        lemma_le_bytes_prefix(n / 256, (a - 1) as nat, (b - 1) as nat);
        lemma_le_bytes_len(n / 256, (a - 1) as nat);
        lemma_le_bytes_len(n / 256, (b - 1) as nat);
    }
}

/// Appends a copy of `b` to `out`.
pub fn push_bytes(out: &mut Vec<u8>, b: &Vec<u8>)
    ensures
        final(out)@ == old(out)@ + b@,
{
    let ghost base = out@;
    let mut j: usize = 0;
    while j < b.len()
        invariant
            j <= b.len(),
            out@ == base + b@.subrange(0, j as int),
        decreases b.len() - j,
    {
        let x: u8 = b[j];
        out.push(x);
        j = j + 1;
        proof {
            assert(base + b@.subrange(0, j - 1) + seq![b@[j - 1]] =~= base + b@.subrange(
                0,
                j as int,
            ));
        }
    }
    proof {
        assert(base + b@.subrange(0, b@.len() as int) =~= base + b@);
    }
}

/// Reads the 8-byte little-endian integer at `i`; `None` when fewer than
/// 8 bytes remain.
pub fn read_u64_le(buf: &Vec<u8>, i: usize) -> (r: Option<(u64, usize)>)
    ensures
        i + 8 <= buf@.len() ==> (r matches Some(p) && p.0 as nat == le_value(
            buf@.subrange(i as int, i + 8),
        ) && p.1 == i + 8),
        i + 8 > buf@.len() ==> r is None,
{
    if buf.len() < 8 || i > buf.len() - 8 {
        return None;
    }
    let mut v: u64 = 0;
    let mut j: usize = 8;
    proof {
        assert(buf@.subrange(i + 8, i + 8) =~= Seq::<u8>::empty());
    }
    while j > 0
        invariant
            j <= 8,
            i + 8 <= buf@.len(),
            buf@.len() <= usize::MAX,
            v as nat == le_value(buf@.subrange(i + j, i + 8)),
            (v as nat) < pow256((8 - j) as nat),
        decreases j,
    {
        j = j - 1;
        let b: u8 = buf[i + j];
        proof {
            lemma_pow256_monotone((8 - j - 1) as nat, 7);
            reveal_with_fuel(pow256, 9);
            assert(pow256(7) == 0x100_0000_0000_0000);
            assert((v as nat) * 256 + 256 <= pow256((8 - j) as nat) * 256) by (nonlinear_arith)
                requires
                    (v as nat) + 1 <= pow256((8 - j) as nat),
            ;
            assert(pow256((8 - j) as nat) * 256 == 256 * pow256((8 - j) as nat));
        }
        v = v * 256 + (b as u64);
        proof {
            let s = buf@.subrange(i + j, i + 8);
            assert(s.drop_first() =~= buf@.subrange(i + j + 1, i + 8));
            assert(s[0] == buf@[i + j]);
        }
    }
    Some((v, i + 8))
}

/// Copies `n` bytes of `buf` starting at `i` into a fresh vector.
pub fn copy_range(buf: &Vec<u8>, i: usize, n: usize) -> (r: Vec<u8>)
    requires
        i + n <= buf@.len(),
    ensures
        r@ == buf@.subrange(i as int, i + n),
{
    let blen: usize = buf.len();
    proof {
        assert(blen == buf@.len());
        assert(buf@.len() <= usize::MAX);
    }
    let mut r: Vec<u8> = Vec::new();
    let mut k: usize = 0;
    while k < n
        invariant
            k <= n,
            i + n <= buf@.len(),
            buf@.len() <= usize::MAX,
            r@ == buf@.subrange(i as int, i + k),
        decreases n - k,
    {
        let x: u8 = buf[i + k];
        r.push(x);
        k = k + 1;
        proof {
            assert(buf@.subrange(i as int, i + k - 1) + seq![buf@[i + k - 1]] =~= buf@.subrange(
                i as int,
                i + k,
            ));
        }
    }
    r
}

/// Byte-for-byte equality of two vectors.
pub fn bytes_eq(a: &Vec<u8>, b: &Vec<u8>) -> (r: bool)
    ensures
        r <==> a@ == b@,
{
    if a.len() != b.len() {
        proof {
            assert(a@.len() != b@.len());
        }
        return false;
    }
    let mut k: usize = 0;
    while k < a.len()
        invariant
            k <= a@.len(),
            a@.len() == b@.len(),
            forall|m: int| 0 <= m < k ==> a@[m] == b@[m],
        decreases a@.len() - k,
    {
        if a[k] != b[k] {
            return false;
        }
        k = k + 1;
    }
    proof {
        assert(a@ =~= b@);
    }
    true
}


/// A fresh vector with the same bytes.
pub fn copy_bytes(v: &Vec<u8>) -> (r: Vec<u8>)
    ensures
        r@ == v@,
{
    let r = copy_range(v, 0, v.len());
    proof {
        assert(v@.subrange(0, v@.len() as int) =~= v@);
    }
    r
}

} // verus!
