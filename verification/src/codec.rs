//! Little-endian numbers in byte sequences.

use vstd::prelude::*;

verus! {

/// `v` as `n` bytes, least significant first. What does not fit is left out.
pub open spec fn le_bytes(v: nat, n: nat) -> Seq<u8>
    decreases n,
{
    if n == 0 {
        Seq::empty()
    } else {
        seq![(v % 256) as u8] + le_bytes(v / 256, (n - 1) as nat)
    }
}

/// The number that the bytes hold, least significant first.
pub open spec fn le_value(s: Seq<u8>) -> nat
    decreases s.len(),
{
    if s.len() == 0 {
        0
    } else {
        s[0] as nat + 256 * le_value(s.drop_first())
    }
}

/// 256 to the power of `n`.
pub open spec fn pow256(n: nat) -> nat
    decreases n,
{
    if n == 0 {
        1
    } else {
        256 * pow256((n - 1) as nat)
    }
}

pub proof fn lemma_le_len(v: nat, n: nat)
    ensures
        le_bytes(v, n).len() == n,
    decreases n,
{
    if n > 0 {
        lemma_le_len(v / 256, (n - 1) as nat);
    }
}

/// Bytes give back the number that they were made of.
pub proof fn lemma_le_roundtrip(v: nat, n: nat)
    requires
        v < pow256(n),
    ensures
        le_value(le_bytes(v, n)) == v,
        le_bytes(v, n).len() == n,
    decreases n,
{
    lemma_le_len(v, n);
    if n > 0 {
        lemma_le_roundtrip(v / 256, (n - 1) as nat);
        assert(le_bytes(v, n).drop_first() =~= le_bytes(v / 256, (n - 1) as nat));
    }
}

/// A number gives back the bytes that it was read from.
pub proof fn lemma_value_roundtrip(s: Seq<u8>)
    ensures
        le_bytes(le_value(s), s.len()) == s,
        le_value(s) < pow256(s.len()),
    decreases s.len(),
{
    if s.len() > 0 {
        lemma_value_roundtrip(s.drop_first());
        assert(seq![s[0]] + s.drop_first() =~= s);
        assert(le_value(s) % 256 == s[0] as nat);
        assert(le_value(s) / 256 == le_value(s.drop_first()));
    } else {
        assert(s =~= Seq::<u8>::empty());
    }
}

pub proof fn lemma_pow256_values()
    ensures
        pow256(0) == 1,
        pow256(1) == 0x100,
        pow256(2) == 0x1_0000,
        pow256(4) == 0x1_0000_0000,
        pow256(8) == 0x1_0000_0000_0000_0000,
{
    reveal_with_fuel(pow256, 9);
}

proof fn lemma_pow256_monotone(m: nat, n: nat)
    requires
        m <= n,
    ensures
        pow256(m) <= pow256(n),
    decreases n,
{
    if m < n {
        lemma_pow256_monotone(m, (n - 1) as nat);
    }
}

pub proof fn lemma_signed(x: i32, y: i64)
    ensures
        x as u32 as i32 == x,
        y as u64 as i64 == y,
{
    assert(x as u32 as i32 == x) by (bit_vector);
    assert(y as u64 as i64 == y) by (bit_vector);
}

/// Append `v` as `n` bytes.
pub fn push_le(out: &mut Vec<u8>, v: u64, n: usize)
    requires
        n <= 8,
    ensures
        final(out)@ == old(out)@ + le_bytes(v as nat, n as nat),
{
    let ghost start = out@;
    let mut v: u64 = v;
    let ghost v0 = v as nat;
    let mut i: usize = 0;
    assert(out@ + le_bytes(v0, n as nat) =~= start + le_bytes(v0, n as nat));
    while i < n
        invariant
            i <= n,
            out@ + le_bytes(v as nat, (n - i) as nat) == start + le_bytes(v0, n as nat),
        decreases n - i,
    {
        let b: u8 = (v % 256) as u8;
        let ghost rest = le_bytes(v as nat / 256, (n - i - 1) as nat);
        assert(out@ + (seq![b] + rest) =~= out@.push(b) + rest);
        out.push(b);
        v = v / 256;
        i = i + 1;
    }
    assert(out@ + Seq::<u8>::empty() =~= out@);
}

/// The number in the `n` bytes from `at` on.
pub fn read_le(buf: &[u8], at: usize, n: usize) -> (v: u64)
    requires
        n <= 8,
        at + n <= buf@.len(),
    ensures
        v as nat == le_value(buf@.subrange(at as int, at + n)),
        (v as nat) < pow256(n as nat),
{
    let total = buf.len();
    let mut v: u64 = 0;
    let mut i: usize = n;
    assert(buf@.subrange(at + n, at + n) =~= Seq::<u8>::empty());
    while i > 0
        invariant
            i <= n <= 8,
            at + n <= buf@.len(),
            total == buf@.len(),
            v as nat == le_value(buf@.subrange(at + i, at + n)),
            (v as nat) < pow256((n - i) as nat),
        decreases i,
    {
        i = i - 1;
        proof {
            lemma_pow256_monotone((n - i) as nat, 8);
            lemma_pow256_values();
            let s = buf@.subrange(at + i, at + n);
            assert(s.drop_first() =~= buf@.subrange(at + i + 1, at + n));
            assert(pow256((n - i) as nat) == 256 * pow256((n - i - 1) as nat));
        }
        v = v * 256 + buf[at + i] as u64;
    }
    v
}

/// The sequences `f(0), .., f(n - 1)` one after the other.
pub open spec fn joined(n: nat, f: spec_fn(int) -> Seq<u8>) -> Seq<u8>
    decreases n,
{
    if n == 0 {
        Seq::empty()
    } else {
        joined((n - 1) as nat, f) + f(n - 1)
    }
}

/// The bytes of item `k` where items of length `len` stand one after the other.
pub open spec fn item(s: Seq<u8>, k: int, len: nat) -> Seq<u8> {
    s.subrange(k * len, k * len + len)
}

/// Items of one length stand at multiples of it.
pub proof fn lemma_joined(n: nat, f: spec_fn(int) -> Seq<u8>, len: nat)
    requires
        forall|k: int| 0 <= k < n ==> (#[trigger] f(k)).len() == len,
    ensures
        joined(n, f).len() == n * len,
        forall|k: int| 0 <= k < n ==> #[trigger] item(joined(n, f), k, len) == f(k),
    decreases n,
{
    if n > 0 {
        let m = (n - 1) as nat;
        lemma_joined(m, f, len);
        assert(f(n - 1).len() == len);
        assert(n * len == m * len + len) by (nonlinear_arith)
            requires
                n == m + 1,
        ;
        assert forall|k: int| 0 <= k < n implies #[trigger] item(joined(n, f), k, len) == f(k) by {
            lemma_item_bounds(n, k, len);
            if k < m {
                lemma_item_bounds(m, k, len);
                assert(item(joined(m, f), k, len) == f(k));
                assert(item(joined(n, f), k, len) =~= item(joined(m, f), k, len));
            } else {
                assert(item(joined(n, f), k, len) =~= f(k));
            }
        }
    } else {
        assert(n * len == 0) by (nonlinear_arith)
            requires
                n == 0,
        ;
    }
}

/// Item `k` of `n` lies within their bytes.
pub proof fn lemma_item_bounds(n: nat, k: int, len: nat)
    requires
        0 <= k < n,
    ensures
        0 <= k * len,
        k * len + len <= n * len,
{
    assert(0 <= k * len && k * len + len <= n * len) by (nonlinear_arith)
        requires
            0 <= k < n,
            0 <= len,
    ;
}

/// What `joined` makes depends only on the items.
pub proof fn lemma_joined_same(
    n: nat,
    f: spec_fn(int) -> Seq<u8>,
    g: spec_fn(int) -> Seq<u8>,
)
    requires
        forall|k: int| 0 <= k < n ==> #[trigger] f(k) == g(k),
    ensures
        joined(n, f) == joined(n, g),
    decreases n,
{
    if n > 0 {
        lemma_joined_same((n - 1) as nat, f, g);
        assert(f(n - 1) == g(n - 1));
    }
}

} // verus!
