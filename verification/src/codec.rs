//! The bit-width codec: the capability contract a fixed-width unsigned
//! integer type must satisfy to be stored in or extracted from a register
//! cell or a memory word. A value is modelled by its sequence of bits,
//! least significant first; the width is fixed per type and divides 512.

use vstd::prelude::*;

use crate::bits::{
    lemma_u64_eq_low, lemma_u64_masked_eq, u64_bit, u64_bits, u64_from_bits, u64_get_bit,
};

verus! {

/// Contract for a fixed-width unsigned integer type: its value is exactly a
/// sequence of `width()` bits, least significant first.
pub trait BitCodec: Sized {
    /// The bits of the value, least significant first; always `width()` long.
    spec fn bits(&self) -> Seq<bool>;

    /// The bit width of the type.
    spec fn width() -> nat;

    /// The width is a positive multiple of 8 that evenly divides 512.
    proof fn lemma_width_facts()
        ensures
            0 < Self::width() <= 512,
            Self::width() % 8 == 0,
            512nat % Self::width() == 0,
    ;

    /// Every value has exactly `width()` bits.
    proof fn lemma_bits_len(&self)
        ensures
            self.bits().len() == Self::width(),
    ;

    /// The bits determine the value.
    proof fn lemma_bits_inj(a: &Self, b: &Self)
        requires
            a.bits() =~= b.bits(),
        ensures
            a == b,
    ;

    /// The bit width of the type, as a run-time value.
    fn exec_width() -> (w: usize)
        ensures
            w as nat == Self::width(),
    ;

    /// Reads bit `i` of the value.
    fn get_bit(&self, i: usize) -> (b: bool)
        requires
            i < Self::width(),
        ensures
            b == self.bits()[i as int],
    ;

    /// Builds the value whose bits are exactly `v`.
    fn from_bits(v: &Vec<bool>) -> (r: Self)
        requires
            v@.len() == Self::width(),
        ensures
            r.bits() == v@,
    ;
}

impl BitCodec for u8 {
    open spec fn bits(&self) -> Seq<bool> {
        u64_bits(*self as u64, 8)
    }

    open spec fn width() -> nat {
        8
    }

    proof fn lemma_width_facts() {
    }

    proof fn lemma_bits_len(&self) {
    }

    proof fn lemma_bits_inj(a: &Self, b: &Self) {
        assert forall|i: u64| i < 8 implies #[trigger] u64_bit(*a as u64, i) == u64_bit(*b as u64, i) by {
            assert(a.bits()[i as int] == b.bits()[i as int]);
        }
        assert((1u64 << 8u64) == 256) by (bit_vector);
        lemma_u64_eq_low(*a as u64, *b as u64, 8);
    }

    fn exec_width() -> (w: usize) {
        8
    }

    fn get_bit(&self, i: usize) -> (b: bool) {
        u64_get_bit(*self as u64, i)
    }

    fn from_bits(v: &Vec<bool>) -> (r: Self) {
        let r64 = u64_from_bits(v, 0, 8);
        proof {
            assert((1u64 << 8u64) == 256) by (bit_vector);
        }
        let r = r64 as u8;
        proof {
            assert(r as u64 == r64);
            assert(r.bits() =~= v@);
        }
        r
    }
}

impl BitCodec for u16 {
    open spec fn bits(&self) -> Seq<bool> {
        u64_bits(*self as u64, 16)
    }

    open spec fn width() -> nat {
        16
    }

    proof fn lemma_width_facts() {
    }

    proof fn lemma_bits_len(&self) {
    }

    proof fn lemma_bits_inj(a: &Self, b: &Self) {
        assert forall|i: u64| i < 16 implies #[trigger] u64_bit(*a as u64, i) == u64_bit(*b as u64, i) by {
            assert(a.bits()[i as int] == b.bits()[i as int]);
        }
        assert((1u64 << 16u64) == 0x10000) by (bit_vector);
        lemma_u64_eq_low(*a as u64, *b as u64, 16);
    }

    fn exec_width() -> (w: usize) {
        16
    }

    fn get_bit(&self, i: usize) -> (b: bool) {
        u64_get_bit(*self as u64, i)
    }

    fn from_bits(v: &Vec<bool>) -> (r: Self) {
        let r64 = u64_from_bits(v, 0, 16);
        proof {
            assert((1u64 << 16u64) == 0x10000) by (bit_vector);
        }
        let r = r64 as u16;
        proof {
            assert(r as u64 == r64);
            assert(r.bits() =~= v@);
        }
        r
    }
}

impl BitCodec for u32 {
    open spec fn bits(&self) -> Seq<bool> {
        u64_bits(*self as u64, 32)
    }

    open spec fn width() -> nat {
        32
    }

    proof fn lemma_width_facts() {
    }

    proof fn lemma_bits_len(&self) {
    }

    proof fn lemma_bits_inj(a: &Self, b: &Self) {
        assert forall|i: u64| i < 32 implies #[trigger] u64_bit(*a as u64, i) == u64_bit(*b as u64, i) by {
            assert(a.bits()[i as int] == b.bits()[i as int]);
        }
        assert((1u64 << 32u64) == 0x1_0000_0000) by (bit_vector);
        lemma_u64_eq_low(*a as u64, *b as u64, 32);
    }

    fn exec_width() -> (w: usize) {
        32
    }

    fn get_bit(&self, i: usize) -> (b: bool) {
        u64_get_bit(*self as u64, i)
    }

    fn from_bits(v: &Vec<bool>) -> (r: Self) {
        let r64 = u64_from_bits(v, 0, 32);
        proof {
            assert((1u64 << 32u64) == 0x1_0000_0000) by (bit_vector);
        }
        let r = r64 as u32;
        proof {
            assert(r as u64 == r64);
            assert(r.bits() =~= v@);
        }
        r
    }
}

impl BitCodec for u64 {
    open spec fn bits(&self) -> Seq<bool> {
        u64_bits(*self, 64)
    }

    open spec fn width() -> nat {
        64
    }

    proof fn lemma_width_facts() {
    }

    proof fn lemma_bits_len(&self) {
    }

    proof fn lemma_bits_inj(a: &Self, b: &Self) {
        assert forall|i: u64| i < 64 implies #[trigger] u64_bit(*a, i) == u64_bit(*b, i) by {
            assert(a.bits()[i as int] == b.bits()[i as int]);
        }
        lemma_u64_masked_eq(*a, *b, 64);
    }

    fn exec_width() -> (w: usize) {
        64
    }

    fn get_bit(&self, i: usize) -> (b: bool) {
        u64_get_bit(*self, i)
    }

    fn from_bits(v: &Vec<bool>) -> (r: Self) {
        let r = u64_from_bits(v, 0, 64);
        proof {
            assert(r.bits() =~= v@);
        }
        r
    }
}

impl BitCodec for u128 {
    open spec fn bits(&self) -> Seq<bool> {
        Seq::new(
            128,
            |i: int|
                if i < 64 {
                    u64_bit(*self as u64, i as u64)
                } else {
                    u64_bit((*self >> 64u128) as u64, (i - 64) as u64)
                },
        )
    }

    open spec fn width() -> nat {
        128
    }

    proof fn lemma_width_facts() {
    }

    proof fn lemma_bits_len(&self) {
    }

    proof fn lemma_bits_inj(a: &Self, b: &Self) {
        let a_lo = *a as u64;
        let b_lo = *b as u64;
        let a_hi = (*a >> 64u128) as u64;
        let b_hi = (*b >> 64u128) as u64;
        assert forall|i: u64| i < 64 implies #[trigger] u64_bit(a_lo, i) == u64_bit(b_lo, i) by {
            assert(a.bits()[i as int] == b.bits()[i as int]);
        }
        assert forall|i: u64| i < 64 implies #[trigger] u64_bit(a_hi, i) == u64_bit(b_hi, i) by {
            assert(a.bits()[i as int + 64] == b.bits()[i as int + 64]);
        }
        lemma_u64_masked_eq(a_lo, b_lo, 64);
        lemma_u64_masked_eq(a_hi, b_hi, 64);
        assert(*a == *b) by (bit_vector)
            requires
                (*a as u64) == (*b as u64),
                ((*a >> 64u128) as u64) == ((*b >> 64u128) as u64),
        ;
    }

    fn exec_width() -> (w: usize) {
        128
    }

    fn get_bit(&self, i: usize) -> (b: bool) {
        if i < 64 {
            u64_get_bit(*self as u64, i)
        } else {
            u64_get_bit((*self >> 64u128) as u64, i - 64)
        }
    }

    fn from_bits(v: &Vec<bool>) -> (r: Self) {
        let lo = u64_from_bits(v, 0, 64);
        let hi = u64_from_bits(v, 64, 64);
        let r = (lo as u128) | ((hi as u128) << 64u128);
        proof {
            assert(r as u64 == lo && (r >> 64u128) as u64 == hi) by (bit_vector)
                requires
                    r == (lo as u128) | ((hi as u128) << 64u128),
            ;
            assert forall|i: int| 0 <= i < 128 implies r.bits()[i] == v@[i] by {
                if i < 64 {
                    assert(u64_bit(lo, i as u64) == v@[i]);
                } else {
                    assert(u64_bit(hi, (i - 64) as u64) == v@[64 + (i - 64)]);
                }
            }
            assert(r.bits() =~= v@);
        }
        r
    }
}

} // verus!
