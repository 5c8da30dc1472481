//! Single bits of a 64-bit row.

use vstd::prelude::*;

verus! {

/// Bit `i` of `w`, counted from the least significant.
pub open spec fn bit(w: u64, i: int) -> bool {
    (w >> (i as u64)) & 1 == 1
}

/// Number of set bits among the lowest `n` bits of `w`.
pub open spec fn ones_below(w: u64, n: nat) -> nat
    decreases n,
{
    if n == 0 {
        0
    } else {
        ones_below(w, (n - 1) as nat) + if bit(w, n - 1) {
            1nat
        } else {
            0
        }
    }
}

/// The word whose bit `i` is `f(i)`, for `i < n`; all other bits are clear.
pub open spec fn word_of(f: spec_fn(int) -> bool, n: nat) -> u64
    decreases n,
{
    if n == 0 {
        0
    } else if f(n - 1) {
        word_of(f, (n - 1) as nat) | (1u64 << ((n - 1) as u64))
    } else {
        word_of(f, (n - 1) as nat)
    }
}

/// [`u64::count_ones`] returns how many bits of its argument are set.
pub assume_specification[ u64::count_ones ](w: u64) -> (n: u32)
    ensures
        n == ones_below(w, 64),
;

/// Bitwise operators act on each bit by itself.
pub proof fn lemma_bit_ops(a: u64, b: u64, i: int)
    requires
        0 <= i < 64,
    ensures
        bit(a & b, i) == (bit(a, i) && bit(b, i)),
        bit(a | b, i) == (bit(a, i) || bit(b, i)),
        bit(a ^ b, i) == (bit(a, i) != bit(b, i)),
        bit(!a, i) == !bit(a, i),
{
    let j = i as u64;
    assert(((a & b) >> j) & 1 == 1 <==> ((a >> j) & 1 == 1 && (b >> j) & 1 == 1)) by (bit_vector);
    assert(((a | b) >> j) & 1 == 1 <==> ((a >> j) & 1 == 1 || (b >> j) & 1 == 1)) by (bit_vector);
    assert(((a ^ b) >> j) & 1 == 1 <==> (((a >> j) & 1 == 1) != ((b >> j) & 1 == 1)))
        by (bit_vector);
    assert(((!a) >> j) & 1 == 1 <==> !((a >> j) & 1 == 1)) by (bit_vector)
        requires
            j < 64,
    ;
}

/// No bit of zero is set.
pub proof fn lemma_bit_zero(i: int)
    ensures
        !bit(0, i),
{
    let j = i as u64;
    assert((0u64 >> j) & 1 == 0) by (bit_vector);
}

/// Shifting one place up and putting `b` in at the bottom.
pub proof fn lemma_bit_shl1(w: u64, b: u64, i: int)
    requires
        0 <= i < 64,
        b <= 1,
    ensures
        bit((w << 1) | b, i) == (if i == 0 {
            b == 1
        } else {
            bit(w, i - 1)
        }),
{
    let j = i as u64;
    assert((((w << 1) | b) >> j) & 1 == (if j == 0 {
        b
    } else {
        (w >> ((j - 1) as u64)) & 1
    })) by (bit_vector)
        requires
            j < 64,
            b <= 1,
    ;
}

/// Shifting one place down and putting `b` in at the top.
pub proof fn lemma_bit_shr1(w: u64, b: u64, i: int)
    requires
        0 <= i < 64,
        b <= 1,
    ensures
        bit((w >> 1) | (b << 63), i) == (if i == 63 {
            b == 1
        } else {
            bit(w, i + 1)
        }),
{
    let j = i as u64;
    assert((((w >> 1) | (b << 63)) >> j) & 1 == (if j == 63 {
        b
    } else {
        (w >> (j + 1) as u64) & 1
    })) by (bit_vector)
        requires
            j < 64,
            b <= 1,
    ;
}

/// Setting and clearing bit `i` leaves every other bit alone.
pub proof fn lemma_bit_update(w: u64, i: int, j: int)
    requires
        0 <= i < 64,
        0 <= j < 64,
    ensures
        bit(w | (1u64 << (i as u64)), j) == (i == j || bit(w, j)),
        bit(w & !(1u64 << (i as u64)), j) == (i != j && bit(w, j)),
{
    let a = i as u64;
    let b = j as u64;
    assert((((w | (1u64 << a)) >> b) & 1 == 1 <==> (a == b || (w >> b) & 1 == 1)) && (((w & !(1u64
        << a)) >> b) & 1 == 1 <==> (a != b && (w >> b) & 1 == 1))) by (bit_vector)
        requires
            a < 64,
            b < 64,
    ;
}

/// `(w >> i) & 1` is bit `i` as a number.
pub proof fn lemma_bit_value(w: u64, i: int)
    requires
        0 <= i < 64,
    ensures
        (w >> (i as u64)) & 1 == (if bit(w, i) {
            1u64
        } else {
            0
        }),
{
    let j = i as u64;
    assert((w >> j) & 1 == 0 || (w >> j) & 1 == 1) by (bit_vector);
}

/// A word is determined by its bits.
pub proof fn lemma_bits_equal(a: u64, b: u64)
    requires
        forall|i: int| 0 <= i < 64 ==> bit(a, i) == bit(b, i),
    ensures
        a == b,
{
    let x = a ^ b;
    if x != 0 {
        vstd::std_specs::bits::axiom_u64_trailing_zeros(x);
        let i = vstd::std_specs::bits::u64_trailing_zeros(x) as int;
        assert(bit(x, i));
        lemma_bit_ops(a, b, i);
        assert(bit(a, i) == bit(b, i));
        assert(false);
    }
    assert(a ^ b == 0 ==> a == b) by (bit_vector);
}

/// A word is zero exactly if no bit is set.
pub proof fn lemma_zero_iff_no_bit(w: u64)
    ensures
        w == 0 <==> (forall|i: int| 0 <= i < 64 ==> !bit(w, i)),
{
    assert forall|i: int| w == 0 && 0 <= i < 64 implies !bit(w, i) by {
        lemma_bit_zero(i);
    }
    if forall|i: int| 0 <= i < 64 ==> !bit(w, i) {
        assert forall|i: int| 0 <= i < 64 implies bit(w, i) == bit(0, i) by {
            lemma_bit_zero(i);
        }
        lemma_bits_equal(w, 0);
    }
}

/// The bits of [`word_of`].
pub proof fn lemma_word_of(f: spec_fn(int) -> bool, n: nat, i: int)
    requires
        n <= 64,
        0 <= i < 64,
    ensures
        bit(word_of(f, n), i) == (i < n && f(i)),
    decreases n,
{
    if n == 0 {
        lemma_bit_zero(i);
    } else {
        lemma_word_of(f, (n - 1) as nat, i);
        lemma_bit_update(word_of(f, (n - 1) as nat), n - 1, i);
    }
}

} // verus!
