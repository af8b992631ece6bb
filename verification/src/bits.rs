//! Bit-level helpers shared by the register bank and the memory codecs:
//! reading single bits of a `u64`, assembling a `u64` from a sequence of
//! booleans, and the lemmas that let equal bit sequences imply equal values.

use vstd::prelude::*;

verus! {

/// The mask with the low `n` bits set, for `n < 64`.
pub open spec fn low_mask(n: u64) -> u64 {
    (((1u64 << n) - 1)) as u64
}

/// True when bit `i` (counting from the least significant bit) of `x` is set.
pub open spec fn u64_bit(x: u64, i: u64) -> bool {
    (x >> i) & 1u64 == 1u64
}

/// The low `n` bits of `x` as a sequence of booleans, least significant first.
pub open spec fn u64_bits(x: u64, n: nat) -> Seq<bool> {
    Seq::new(n, |i: int| u64_bit(x, i as u64))
}

/// Reads bit `i` of `x`.
pub fn u64_get_bit(x: u64, i: usize) -> (b: bool)
    requires
        i < 64,
    ensures
        b == u64_bit(x, i as u64),
{
    ((x >> (i as u64)) & 1u64) == 1u64
}

/// Builds the `u64` whose low `n` bits are `v[off .. off + n]` and whose
/// higher bits are all zero.
pub fn u64_from_bits(v: &Vec<bool>, off: usize, n: usize) -> (r: u64)
    requires
        n <= 64,
        off + n <= v@.len(),
    ensures
        forall|i: u64| i < 64 ==> #[trigger] u64_bit(r, i) == (i < n && v@[off + i]),
        n < 64 ==> r < (1u64 << (n as u64)),
{
    let len: usize = v.len();
    let mut r: u64 = 0;
    let mut j: usize = 0;
    proof {
        assert forall|i: u64| i < 64 implies #[trigger] u64_bit(0u64, i) == false by {
            assert((0u64 >> i) & 1u64 == 0u64) by (bit_vector);
        }
        assert(0u64 < (1u64 << 0u64)) by (bit_vector);
    }
    while j < n
        invariant
            j <= n,
            n <= 64,
            off + n <= len,
            len == v@.len(),
            forall|i: u64| i < 64 ==> #[trigger] u64_bit(r, i) == (i < j && v@[off + i]),
            j < 64 ==> r < (1u64 << (j as u64)),
        decreases n - j,
    {
        let ghost r0 = r;
        let j64: u64 = j as u64;
        if v[off + j] {
            r = r | (1u64 << j64);
        }
        proof {
            if v@[off + j] {
                assert forall|i: u64| i < 64 implies #[trigger] u64_bit(r, i) == (i < j + 1
                    && v@[off + i]) by {
                    assert(u64_bit(r0, i) == (i < j && v@[off + i]));
                    assert(((r0 | (1u64 << j64)) >> i) & 1u64 == (if i == j64 {
                        1u64
                    } else {
                        (r0 >> i) & 1u64
                    })) by (bit_vector)
                        requires
                            i < 64,
                            j64 < 64,
                    ;
                }
            } else {
                assert(u64_bit(r, j64) == false);
                assert forall|i: u64| i < 64 implies #[trigger] u64_bit(r, i) == (i < j + 1
                    && v@[off + i]) by {
                    assert(u64_bit(r0, i) == (i < j && v@[off + i]));
                }
            }
            if j + 1 < 64 {
                assert(r < (1u64 << ((j64 + 1) as u64))) by (bit_vector)
                    requires
                        j64 < 63,
                        r0 < (1u64 << j64),
                        r == r0 || r == r0 | (1u64 << j64),
                ;
            }
        }
        j = j + 1;
    }
    r
}

/// If the low `n` bits of `a` and `b` agree, then `a` and `b` agree on the
/// mask of the low `n` bits; with `n == 64` they are equal outright.
pub proof fn lemma_u64_masked_eq(a: u64, b: u64, n: u64)
    requires
        n <= 64,
        forall|i: u64| i < n ==> u64_bit(a, i) == u64_bit(b, i),
    ensures
        n < 64 ==> (a & low_mask(n)) == (b & low_mask(n)),
        n == 64 ==> a == b,
    decreases n,
{
    if n == 0 {
        assert((a & low_mask(0u64)) == (b & low_mask(0u64))) by (bit_vector);
    } else {
        let m = (n - 1) as u64;
        lemma_u64_masked_eq(a, b, m);
        assert(u64_bit(a, m) == u64_bit(b, m));
        if n < 64 {
            assert((a & low_mask(n)) == (b & low_mask(n))) by (bit_vector)
                requires
                    0 < n < 64,
                    m == n - 1,
                    (a & low_mask(m)) == (b & low_mask(m)),
                    ((a >> m) & 1u64 == 1u64) == ((b >> m) & 1u64 == 1u64),
            ;
        } else {
            assert(a == b) by (bit_vector)
                requires
                    m == 63,
                    (a & low_mask(m)) == (b & low_mask(m)),
                    ((a >> m) & 1u64 == 1u64) == ((b >> m) & 1u64 == 1u64),
            ;
        }
    }
}

/// Two `u64` values with the same 64-bit sequence are equal.
pub proof fn lemma_u64_eq_from_bits(a: u64, b: u64)
    requires
        forall|i: u64| i < 64 ==> u64_bit(a, i) == u64_bit(b, i),
    ensures
        a == b,
{
    lemma_u64_masked_eq(a, b, 64);
}

/// Values below `2^n` have all bits at positions `n` and above clear.
pub proof fn lemma_u64_high_bits_clear(x: u64, n: u64, i: u64)
    requires
        n <= i < 64,
        x < (1u64 << n),
    ensures
        !u64_bit(x, i),
{
    assert((x >> i) & 1u64 == 0u64) by (bit_vector)
        requires
            n <= i < 64,
            x < (1u64 << n),
    ;
}

/// Two values below `2^n` whose low `n` bits agree are equal.
pub proof fn lemma_u64_eq_low(a: u64, b: u64, n: u64)
    requires
        n <= 64,
        n < 64 ==> a < (1u64 << n) && b < (1u64 << n),
        forall|i: u64| i < n ==> u64_bit(a, i) == u64_bit(b, i),
    ensures
        a == b,
{
    assert forall|i: u64| i < 64 implies u64_bit(a, i) == u64_bit(b, i) by {
        if n <= i {
            lemma_u64_high_bits_clear(a, n, i);
            lemma_u64_high_bits_clear(b, n, i);
        }
    }
    lemma_u64_eq_from_bits(a, b);
}

/// Bit `i` of zero is clear.
pub proof fn lemma_u64_zero_bit(i: u64)
    requires
        i < 64,
    ensures
        !u64_bit(0u64, i),
{
    assert((0u64 >> i) & 1u64 == 0u64) by (bit_vector);
}

} // verus!
