//! Wide unsigned integers (256 and 512 bits) built from 64-bit limbs,
//! least significant limb first. They satisfy the same bit-width codec
//! contract as the native integer widths, so registers and memory handle
//! them through the very same code paths.

use vstd::prelude::*;

use crate::bits::{lemma_u64_masked_eq, u64_bit, u64_from_bits, u64_get_bit, lemma_u64_zero_bit};
use crate::codec::BitCodec;

verus! {

/// A 256-bit unsigned integer: four 64-bit limbs, least significant first.
#[derive(Clone, Copy, Debug, PartialEq, Eq, Structural)]
pub struct U256 {
    pub w0: u64,
    pub w1: u64,
    pub w2: u64,
    pub w3: u64,
}

/// A 512-bit unsigned integer: eight 64-bit limbs, least significant first.
#[derive(Clone, Copy, Debug, PartialEq, Eq, Structural)]
pub struct U512 {
    pub w0: u64,
    pub w1: u64,
    pub w2: u64,
    pub w3: u64,
    pub w4: u64,
    pub w5: u64,
    pub w6: u64,
    pub w7: u64,
}

impl U256 {
    /// Limb `k`, least significant first.
    pub open spec fn limb(self, k: int) -> u64 {
        if k == 0 {
            self.w0
        } else if k == 1 {
            self.w1
        } else if k == 2 {
            self.w2
        } else {
            self.w3
        }
    }

    /// The value whose limbs are the four arguments, least significant first.
    pub fn from_limbs(w0: u64, w1: u64, w2: u64, w3: u64) -> (r: Self)
        ensures
            r.w0 == w0 && r.w1 == w1 && r.w2 == w2 && r.w3 == w3,
    {
        U256 { w0, w1, w2, w3 }
    }

    /// The value of `x`, zero-extended to 256 bits.
    pub fn from_u64(x: u64) -> (r: Self)
        ensures
            forall|i: int| 0 <= i < 256 ==> #[trigger] r.bits()[i] == (i < 64 && x.bits()[i]),
    {
        let r = U256 { w0: x, w1: 0, w2: 0, w3: 0 };
        proof {
            assert forall|i: int| 0 <= i < 256 implies #[trigger] r.bits()[i] == (i < 64
                && x.bits()[i]) by {
                if i >= 64 {
                    lemma_u64_zero_bit((i % 64) as u64);
                }
            }
        }
        r
    }

    /// The value of `x`, zero-extended to 256 bits.
    pub fn from_u128(x: u128) -> (r: Self)
        ensures
            forall|i: int| 0 <= i < 256 ==> #[trigger] r.bits()[i] == (i < 128 && x.bits()[i]),
    {
        let lo = x as u64;
        let hi = (x >> 64u128) as u64;
        let r = U256 { w0: lo, w1: hi, w2: 0, w3: 0 };
        proof {
            assert forall|i: int| 0 <= i < 256 implies #[trigger] r.bits()[i] == (i < 128
                && x.bits()[i]) by {
                if i >= 128 {
                    lemma_u64_zero_bit((i % 64) as u64);
                } else if i >= 64 {
                    assert(i / 64 == 1 && i % 64 == i - 64);
                }
            }
        }
        r
    }
}

impl BitCodec for U256 {
    open spec fn bits(&self) -> Seq<bool> {
        Seq::new(256, |i: int| u64_bit(self.limb(i / 64), (i % 64) as u64))
    }

    open spec fn width() -> nat {
        256
    }

    proof fn lemma_width_facts() {
    }

    proof fn lemma_bits_len(&self) {
    }

    proof fn lemma_bits_inj(a: &Self, b: &Self) {
        assert forall|k: int| 0 <= k < 4 implies a.limb(k) == b.limb(k) by {
            assert forall|i: u64| i < 64 implies #[trigger] u64_bit(a.limb(k), i) == u64_bit(
                b.limb(k),
                i,
            ) by {
                let j = k * 64 + i;
                assert(a.bits()[j] == b.bits()[j]);
                assert(j / 64 == k && j % 64 == i);
            }
            lemma_u64_masked_eq(a.limb(k), b.limb(k), 64);
        }
        assert(a.limb(0) == b.limb(0) && a.limb(1) == b.limb(1) && a.limb(2) == b.limb(2)
            && a.limb(3) == b.limb(3));
    }

    fn exec_width() -> (w: usize) {
        256
    }

    fn get_bit(&self, i: usize) -> (b: bool) {
        let k = i / 64;
        let off = i % 64;
        let limb = if k == 0 {
            self.w0
        } else if k == 1 {
            self.w1
        } else if k == 2 {
            self.w2
        } else {
            self.w3
        };
        u64_get_bit(limb, off)
    }

    fn from_bits(v: &Vec<bool>) -> (r: Self) {
        let w0 = u64_from_bits(v, 0, 64);
        let w1 = u64_from_bits(v, 64, 64);
        let w2 = u64_from_bits(v, 128, 64);
        let w3 = u64_from_bits(v, 192, 64);
        let r = U256 { w0, w1, w2, w3 };
        proof {
            assert forall|i: int| 0 <= i < 256 implies #[trigger] r.bits()[i] == v@[i] by {
                let k = i / 64;
                let off = i % 64;
                assert(u64_bit(r.limb(k), off as u64) == v@[k * 64 + off]);
                assert(k * 64 + off == i);
            }
            assert(r.bits() =~= v@);
        }
        r
    }
}

impl U512 {
    /// Limb `k`, least significant first.
    pub open spec fn limb(self, k: int) -> u64 {
        if k == 0 {
            self.w0
        } else if k == 1 {
            self.w1
        } else if k == 2 {
            self.w2
        } else if k == 3 {
            self.w3
        } else if k == 4 {
            self.w4
        } else if k == 5 {
            self.w5
        } else if k == 6 {
            self.w6
        } else {
            self.w7
        }
    }

    /// The value of `x`, zero-extended to 512 bits.
    pub fn from_u64(x: u64) -> (r: Self)
        ensures
            forall|i: int| 0 <= i < 512 ==> #[trigger] r.bits()[i] == (i < 64 && x.bits()[i]),
    {
        let r = U512 { w0: x, w1: 0, w2: 0, w3: 0, w4: 0, w5: 0, w6: 0, w7: 0 };
        proof {
            assert forall|i: int| 0 <= i < 512 implies #[trigger] r.bits()[i] == (i < 64
                && x.bits()[i]) by {
                if i >= 64 {
                    lemma_u64_zero_bit((i % 64) as u64);
                }
            }
        }
        r
    }

    /// The value of `x`, zero-extended to 512 bits.
    pub fn from_u128(x: u128) -> (r: Self)
        ensures
            forall|i: int| 0 <= i < 512 ==> #[trigger] r.bits()[i] == (i < 128 && x.bits()[i]),
    {
        let lo = x as u64;
        let hi = (x >> 64u128) as u64;
        let r = U512 { w0: lo, w1: hi, w2: 0, w3: 0, w4: 0, w5: 0, w6: 0, w7: 0 };
        proof {
            assert forall|i: int| 0 <= i < 512 implies #[trigger] r.bits()[i] == (i < 128
                && x.bits()[i]) by {
                if i >= 128 {
                    lemma_u64_zero_bit((i % 64) as u64);
                } else if i >= 64 {
                    assert(i / 64 == 1 && i % 64 == i - 64);
                }
            }
        }
        r
    }
}

impl BitCodec for U512 {
    open spec fn bits(&self) -> Seq<bool> {
        Seq::new(512, |i: int| u64_bit(self.limb(i / 64), (i % 64) as u64))
    }

    open spec fn width() -> nat {
        512
    }

    proof fn lemma_width_facts() {
    }

    proof fn lemma_bits_len(&self) {
    }

    proof fn lemma_bits_inj(a: &Self, b: &Self) {
        assert forall|k: int| 0 <= k < 8 implies a.limb(k) == b.limb(k) by {
            assert forall|i: u64| i < 64 implies #[trigger] u64_bit(a.limb(k), i) == u64_bit(
                b.limb(k),
                i,
            ) by {
                let j = k * 64 + i;
                assert(a.bits()[j] == b.bits()[j]);
                assert(j / 64 == k && j % 64 == i);
            }
            lemma_u64_masked_eq(a.limb(k), b.limb(k), 64);
        }
        assert(a.limb(0) == b.limb(0) && a.limb(1) == b.limb(1) && a.limb(2) == b.limb(2)
            && a.limb(3) == b.limb(3) && a.limb(4) == b.limb(4) && a.limb(5) == b.limb(5)
            && a.limb(6) == b.limb(6) && a.limb(7) == b.limb(7));
    }

    fn exec_width() -> (w: usize) {
        512
    }

    fn get_bit(&self, i: usize) -> (b: bool) {
        let k = i / 64;
        let off = i % 64;
        let limb = if k == 0 {
            self.w0
        } else if k == 1 {
            self.w1
        } else if k == 2 {
            self.w2
        } else if k == 3 {
            self.w3
        } else if k == 4 {
            self.w4
        } else if k == 5 {
            self.w5
        } else if k == 6 {
            self.w6
        } else {
            self.w7
        };
        u64_get_bit(limb, off)
    }

    fn from_bits(v: &Vec<bool>) -> (r: Self) {
        let w0 = u64_from_bits(v, 0, 64);
        let w1 = u64_from_bits(v, 64, 64);
        let w2 = u64_from_bits(v, 128, 64);
        let w3 = u64_from_bits(v, 192, 64);
        let w4 = u64_from_bits(v, 256, 64);
        let w5 = u64_from_bits(v, 320, 64);
        let w6 = u64_from_bits(v, 384, 64);
        let w7 = u64_from_bits(v, 448, 64);
        let r = U512 { w0, w1, w2, w3, w4, w5, w6, w7 };
        proof {
            assert forall|i: int| 0 <= i < 512 implies #[trigger] r.bits()[i] == v@[i] by {
                let k = i / 64;
                let off = i % 64;
                assert(u64_bit(r.limb(k), off as u64) == v@[k * 64 + off]);
                assert(k * 64 + off == i);
            }
            assert(r.bits() =~= v@);
        }
        r
    }
}

} // verus!
