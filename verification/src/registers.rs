//! The register file: sixteen physical 512-bit vector cells with overlapping
//! 128/256/512-bit logical windows, sixteen 64-bit general-purpose registers
//! with x86-accurate sub-width aliasing, and the flags and instruction
//! pointer registers with masked 64/32/16-bit views.

use vstd::prelude::*;

use crate::cell::{bit_vec_view, bitvec_from_elem, bitvec_get, bitvec_len, bitvec_set};
use crate::codec::BitCodec;
use crate::selector::{parse_selector, spec_parse_selector};
use bit_vec::BitVec;
use vstd::arithmetic::div_mod::{lemma_fundamental_div_mod, lemma_fundamental_div_mod_converse};

verus! {

/// A logical window over a physical vector register cell.
#[derive(Clone, Copy)]
pub enum VecRegName {
    XMM,
    YMM,
    ZMM,
}

/// The bit width of a logical window.
pub open spec fn window_bits(w: VecRegName) -> int {
    match w {
        VecRegName::XMM => 128,
        VecRegName::YMM => 256,
        VecRegName::ZMM => 512,
    }
}

/// The bit width of a logical window, as a run-time value.
pub fn window_width(w: VecRegName) -> (n: usize)
    ensures
        n as int == window_bits(w),
{
    match w {
        VecRegName::XMM => 128,
        VecRegName::YMM => 256,
        VecRegName::ZMM => 512,
    }
}

/// One physical vector register cell: a fixed run of bits, index 0 the least
/// significant. Its view is the sequence of those bits.
pub struct SIMDRegister {
    bits: BitVec,
}

impl View for SIMDRegister {
    type V = Seq<bool>;

    closed spec fn view(&self) -> Seq<bool> {
        bit_vec_view(self.bits)
    }
}

impl SIMDRegister {
    /// A cell of `size` bits, all clear.
    pub fn new(size: usize) -> (r: Self)
        ensures
            r@ == Seq::new(size as nat, |i: int| false),
    {
        SIMDRegister { bits: bitvec_from_elem(size, false) }
    }

    /// Overwrites the bit at `position`; every other bit keeps its value.
    pub fn set_bit(&mut self, position: usize, value: bool)
        requires
            position < old(self)@.len(),
        ensures
            final(self)@ == old(self)@.update(position as int, value),
    {
        bitvec_set(&mut self.bits, position, value);
    }

    /// Reads the bit at `position`.
    pub fn get_bit(&self, position: usize) -> (b: bool)
        requires
            position < self@.len(),
        ensures
            b == self@[position as int],
    {
        bitvec_get(&self.bits, position)
    }

    /// Overwrites the whole cell with the bits of `v`.
    pub fn write_all(&mut self, v: &Vec<bool>)
        requires
            v@.len() == old(self)@.len(),
        ensures
            final(self)@ == v@,
    {
        let n = bitvec_len(&self.bits);
        let mut i: usize = 0;
        while i < n
            invariant
                i <= n,
                n as nat == self@.len(),
                self@.len() == v@.len(),
                forall|j: int| 0 <= j < i ==> self@[j] == v@[j],
                forall|j: int| i <= j < n ==> self@[j] == old(self)@[j],
            decreases n - i,
        {
            bitvec_set(&mut self.bits, i, v[i]);
            i = i + 1;
        }
        proof {
            assert(self@ =~= v@);
        }
    }

    /// The number of bits in the cell.
    pub fn len(&self) -> (n: usize)
        ensures
            n as nat == self@.len(),
    {
        bitvec_len(&self.bits)
    }

    /// Reads the inclusive bit range `start_index ..= end_index` into the low
    /// bits of a `T`: positions beyond the cell's length read as clear, and
    /// bits of the result past the range's size are clear.
    pub fn get_by_index<T: BitCodec>(&self, start_index: usize, end_index: usize) -> (r: T)
        requires
            start_index <= end_index,
            end_index - start_index < T::width(),
        ensures
            r.bits().len() == T::width(),
            forall|j: int|
                0 <= j < T::width() ==> (#[trigger] r.bits()[j]) == (start_index + j <= end_index
                    && start_index + j < self@.len() && self@[start_index + j]),
    {
        proof {
            T::lemma_width_facts();
        }
        let w = T::exec_width();
        let len = self.len();
        let mut v: Vec<bool> = Vec::new();
        let mut j: usize = 0;
        while j < w
            invariant
                j <= w,
                w as nat == T::width(),
                start_index <= end_index,
                end_index - start_index < w,
                len as nat == self@.len(),
                v@.len() == j,
                forall|jj: int|
                    0 <= jj < j ==> v@[jj] == (start_index + jj <= end_index && start_index + jj
                        < len && self@[start_index + jj]),
            decreases w - j,
        {
            let b = if j <= end_index - start_index && start_index < len && len - start_index > j {
                self.get_bit(start_index + j)
            } else {
                false
            };
            v.push(b);
            j = j + 1;
        }
        let r = T::from_bits(&v);
        proof {
            r.lemma_bits_len();
        }
        r
    }

    /// Writes bits `start_index ..= end_index` of the cell from the low bits
    /// of `value`: inside the range, positions past the value's declared
    /// width are forced clear; bits outside the range, and positions beyond
    /// the cell's length, are untouched.
    pub fn set_by_index<T: BitCodec>(&mut self, start_index: usize, end_index: usize, value: &T)
        requires
            start_index <= end_index,
        ensures
            final(self)@.len() == old(self)@.len(),
            forall|p: int|
                0 <= p < old(self)@.len() ==> (#[trigger] final(self)@[p]) == (if start_index <= p
                    <= end_index {
                    p - start_index < T::width() && value.bits()[p - start_index]
                } else {
                    old(self)@[p]
                }),
    {
        proof {
            T::lemma_width_facts();
            value.lemma_bits_len();
        }
        let w = T::exec_width();
        let len = self.len();
        let mut i: usize = start_index;
        while i < len && i <= end_index
            invariant
                start_index <= i,
                w as nat == T::width(),
                start_index <= end_index,
                len as nat == self@.len(),
                self@.len() == old(self)@.len(),
                i <= end_index + 1,
                forall|p: int|
                    0 <= p < len && start_index <= p < i && p <= end_index ==> (
                    #[trigger] self@[p]) == (p - start_index < T::width() && value.bits()[p
                        - start_index]),
                forall|p: int|
                    0 <= p < len && !(start_index <= p < i) ==> self@[p] == old(self)@[p],
            decreases len - i,
        {
            let off = i - start_index;
            let b = if off < w {
                value.get_bit(off)
            } else {
                false
            };
            self.set_bit(i, b);
            i = i + 1;
        }
    }

    /// Clears every bit of the cell.
    pub fn clear(&mut self)
        ensures
            final(self)@ == Seq::new(old(self)@.len(), |j: int| false),
    {
        let n = bitvec_len(&self.bits);
        let mut i: usize = 0;
        while i < n
            invariant
                i <= n,
                n as nat == self@.len(),
                self@.len() == old(self)@.len(),
                forall|j: int| 0 <= j < i ==> self@[j] == false,
                forall|j: int| i <= j < n ==> self@[j] == old(self)@[j],
            decreases n - i,
        {
            bitvec_set(&mut self.bits, i, false);
            i = i + 1;
        }
        proof {
            assert(self@ =~= Seq::new(old(self)@.len(), |j: int| false));
        }
    }
}

/// A 64-bit general-purpose register cell.
pub struct GPR {
    value: u64,
}

impl GPR {
    /// A register holding zero.
    pub fn new() -> (r: Self)
        ensures
            r.value_spec() == 0,
    {
        GPR { value: 0 }
    }

    /// The stored 64-bit value.
    pub closed spec fn value_spec(self) -> u64 {
        self.value
    }

    /// Replaces the stored value.
    pub fn set_value(&mut self, val: u64)
        ensures
            final(self).value_spec() == val,
    {
        self.value = val;
    }

    /// Reads the stored value.
    pub fn get_value(&self) -> (v: u64)
        ensures
            v == self.value_spec(),
    {
        self.value
    }
}

impl Clone for GPR {
    fn clone(&self) -> (r: Self)
        ensures
            r.value_spec() == self.value_spec(),
    {
        GPR { value: self.value }
    }
}


/// A symbolic general-purpose register name: the 64-bit registers and their
/// 32-, 16- and 8-bit x86 aliases.
#[derive(Clone, Copy)]
pub enum GPRName {
    RAX,
    RBX,
    RCX,
    RDX,
    RSI,
    RDI,
    RBP,
    RSP,
    R8,
    R9,
    R10,
    R11,
    R12,
    R13,
    R14,
    R15,
    EAX,
    EBX,
    ECX,
    EDX,
    ESI,
    EDI,
    EBP,
    ESP,
    R8D,
    R9D,
    R10D,
    R11D,
    R12D,
    R13D,
    R14D,
    R15D,
    AX,
    BX,
    CX,
    DX,
    SI,
    DI,
    BP,
    SP,
    R8W,
    R9W,
    R10W,
    R11W,
    R12W,
    R13W,
    R14W,
    R15W,
    AH,
    BH,
    CH,
    DH,
    AL,
    BL,
    CL,
    DL,
    SIL,
    DIL,
    BPL,
    SPL,
    R8B,
    R9B,
    R10B,
    R11B,
    R12B,
    R13B,
    R14B,
    R15B,
}

/// The physical 64-bit register index (0 to 15) a symbolic name addresses.
pub open spec fn gpr_phys(n: GPRName) -> int {
    match n {
        GPRName::RAX | GPRName::EAX | GPRName::AX | GPRName::AH | GPRName::AL => 0,
        GPRName::RBX | GPRName::EBX | GPRName::BX | GPRName::BH | GPRName::BL => 1,
        GPRName::RCX | GPRName::ECX | GPRName::CX | GPRName::CH | GPRName::CL => 2,
        GPRName::RDX | GPRName::EDX | GPRName::DX | GPRName::DH | GPRName::DL => 3,
        GPRName::RSI | GPRName::ESI | GPRName::SI | GPRName::SIL => 4,
        GPRName::RDI | GPRName::EDI | GPRName::DI | GPRName::DIL => 5,
        GPRName::RBP | GPRName::EBP | GPRName::BP | GPRName::BPL => 6,
        GPRName::RSP | GPRName::ESP | GPRName::SP | GPRName::SPL => 7,
        GPRName::R8 | GPRName::R8D | GPRName::R8W | GPRName::R8B => 8,
        GPRName::R9 | GPRName::R9D | GPRName::R9W | GPRName::R9B => 9,
        GPRName::R10 | GPRName::R10D | GPRName::R10W | GPRName::R10B => 10,
        GPRName::R11 | GPRName::R11D | GPRName::R11W | GPRName::R11B => 11,
        GPRName::R12 | GPRName::R12D | GPRName::R12W | GPRName::R12B => 12,
        GPRName::R13 | GPRName::R13D | GPRName::R13W | GPRName::R13B => 13,
        GPRName::R14 | GPRName::R14D | GPRName::R14W | GPRName::R14B => 14,
        GPRName::R15 | GPRName::R15D | GPRName::R15W | GPRName::R15B => 15,
    }
}

/// The physical register index, as a run-time value.
pub fn gpr_index(n: GPRName) -> (i: usize)
    ensures
        i as int == gpr_phys(n),
{
    match n {
        GPRName::RAX | GPRName::EAX | GPRName::AX | GPRName::AH | GPRName::AL => 0,
        GPRName::RBX | GPRName::EBX | GPRName::BX | GPRName::BH | GPRName::BL => 1,
        GPRName::RCX | GPRName::ECX | GPRName::CX | GPRName::CH | GPRName::CL => 2,
        GPRName::RDX | GPRName::EDX | GPRName::DX | GPRName::DH | GPRName::DL => 3,
        GPRName::RSI | GPRName::ESI | GPRName::SI | GPRName::SIL => 4,
        GPRName::RDI | GPRName::EDI | GPRName::DI | GPRName::DIL => 5,
        GPRName::RBP | GPRName::EBP | GPRName::BP | GPRName::BPL => 6,
        GPRName::RSP | GPRName::ESP | GPRName::SP | GPRName::SPL => 7,
        GPRName::R8 | GPRName::R8D | GPRName::R8W | GPRName::R8B => 8,
        GPRName::R9 | GPRName::R9D | GPRName::R9W | GPRName::R9B => 9,
        GPRName::R10 | GPRName::R10D | GPRName::R10W | GPRName::R10B => 10,
        GPRName::R11 | GPRName::R11D | GPRName::R11W | GPRName::R11B => 11,
        GPRName::R12 | GPRName::R12D | GPRName::R12W | GPRName::R12B => 12,
        GPRName::R13 | GPRName::R13D | GPRName::R13W | GPRName::R13B => 13,
        GPRName::R14 | GPRName::R14D | GPRName::R14W | GPRName::R14B => 14,
        GPRName::R15 | GPRName::R15D | GPRName::R15W | GPRName::R15B => 15,
    }
}

/// The new 64-bit backing value after writing `value` through the view named
/// by `n`, over the old backing value `prev`. The low-32 view zero-extends;
/// the low-16 and low-8 views merge into the old value; the high-8 view
/// shifts its byte into bits 8 to 15 and preserves the rest. Only the RAX
/// family carries bespoke masking; every other name writes its full 64 bits
/// directly, a documented incompleteness of the register table.
pub open spec fn spec_gpr_write(prev: u64, n: GPRName, value: u64) -> u64 {
    match n {
        GPRName::EAX => value & 0x0000_0000_FFFF_FFFFu64,
        GPRName::AX => (prev & 0xFFFF_FFFF_FFFF_0000u64) | (value & 0x0000_0000_0000_FFFFu64),
        GPRName::AL => (prev & 0xFFFF_FFFF_FFFF_FF00u64) | (value & 0x0000_0000_0000_00FFu64),
        GPRName::AH => (prev & 0xFFFF_FFFF_FFFF_00FFu64) | ((value << 8u64)
            & 0x0000_0000_0000_FF00u64),
        _ => value,
    }
}

/// The value read through the view named by `n` from the 64-bit backing
/// value `stored`: the named sub-range of bits, shifted down to bit 0.
pub open spec fn spec_gpr_read(stored: u64, n: GPRName) -> u64 {
    match n {
        GPRName::EAX => stored & 0x0000_0000_FFFF_FFFFu64,
        GPRName::AX => stored & 0x0000_0000_0000_FFFFu64,
        GPRName::AL => stored & 0x0000_0000_0000_00FFu64,
        GPRName::AH => (stored & 0x0000_0000_0000_FF00u64) >> 8u64,
        _ => stored,
    }
}

/// A symbolic name for the flags register: full width or a masked view.
#[derive(Clone, Copy)]
pub enum FLAGSName {
    RFLAGS,
    EFLAGS,
    FLAGS,
}

/// A symbolic name for the instruction pointer: full width or a masked view.
#[derive(Clone, Copy)]
pub enum IPName {
    RIP,
    EIP,
    IP,
}

/// The new flags value after writing `value` through the view named by `n`:
/// a narrower view replaces its low bits and preserves the rest.
pub open spec fn spec_flags_write(prev: u64, n: FLAGSName, value: u64) -> u64 {
    match n {
        FLAGSName::RFLAGS => value,
        FLAGSName::EFLAGS => (prev & 0xFFFF_FFFF_0000_0000u64) | (value
            & 0x0000_0000_FFFF_FFFFu64),
        FLAGSName::FLAGS => (prev & 0xFFFF_FFFF_FFFF_0000u64) | (value
            & 0x0000_0000_0000_FFFFu64),
    }
}

/// The flags value read through the view named by `n`.
pub open spec fn spec_flags_read(stored: u64, n: FLAGSName) -> u64 {
    match n {
        FLAGSName::RFLAGS => stored,
        FLAGSName::EFLAGS => stored & 0x0000_0000_FFFF_FFFFu64,
        FLAGSName::FLAGS => stored & 0x0000_0000_0000_FFFFu64,
    }
}

/// The new instruction-pointer value after writing `value` through the view
/// named by `n`: a narrower view replaces its low bits and preserves the
/// rest, the same pattern as the flags register.
pub open spec fn spec_ip_write(prev: u64, n: IPName, value: u64) -> u64 {
    match n {
        IPName::RIP => value,
        IPName::EIP => (prev & 0xFFFF_FFFF_0000_0000u64) | (value & 0x0000_0000_FFFF_FFFFu64),
        IPName::IP => (prev & 0xFFFF_FFFF_FFFF_0000u64) | (value & 0x0000_0000_0000_FFFFu64),
    }
}

/// The instruction-pointer value read through the view named by `n`.
pub open spec fn spec_ip_read(stored: u64, n: IPName) -> u64 {
    match n {
        IPName::RIP => stored,
        IPName::EIP => stored & 0x0000_0000_FFFF_FFFFu64,
        IPName::IP => stored & 0x0000_0000_0000_FFFFu64,
    }
}

/// The whole register file: sixteen 512-bit vector cells, sixteen 64-bit
/// general-purpose cells, the flags register and the instruction pointer.
pub struct Registers {
    simd_registers: Vec<SIMDRegister>,
    gpr: Vec<GPR>,
    rflags: u64,
    rip: u64,
}

impl Registers {
    /// The bits of physical vector cell `i`, least significant first.
    pub closed spec fn simd(self, i: int) -> Seq<bool> {
        self.simd_registers@[i]@
    }

    /// The 64-bit value of physical general-purpose register `i`.
    pub closed spec fn gpr_at(self, i: int) -> u64 {
        self.gpr@[i].value_spec()
    }

    /// The 64-bit flags register.
    pub closed spec fn flags_value(self) -> u64 {
        self.rflags
    }

    /// The 64-bit instruction pointer.
    pub closed spec fn ip_value(self) -> u64 {
        self.rip
    }

    /// Well-formed: sixteen vector cells of 512 bits each and sixteen
    /// general-purpose cells.
    pub closed spec fn wf(self) -> bool {
        &&& self.simd_registers@.len() == 16
        &&& self.gpr@.len() == 16
        &&& forall|i: int| 0 <= i < 16 ==> (#[trigger] self.simd(i)).len() == 512
    }

    /// All vector cells other than `idx` hold the same bits in both states.
    pub open spec fn simd_elsewhere_unchanged(pre: Registers, post: Registers, idx: int) -> bool {
        forall|j: int| 0 <= j < 16 && j != idx ==> pre.simd(j) == post.simd(j)
    }

    /// All vector cells hold the same bits in both states.
    pub open spec fn simd_unchanged(pre: Registers, post: Registers) -> bool {
        forall|j: int| 0 <= j < 16 ==> pre.simd(j) == post.simd(j)
    }

    /// The general-purpose, flags and instruction-pointer registers hold the
    /// same values in both states.
    pub open spec fn scalars_unchanged(pre: Registers, post: Registers) -> bool {
        &&& forall|j: int| 0 <= j < 16 ==> pre.gpr_at(j) == post.gpr_at(j)
        &&& pre.flags_value() == post.flags_value()
        &&& pre.ip_value() == post.ip_value()
    }

    /// In a well-formed register file every physical vector cell holds
    /// exactly 512 bits; stated here because `wf` itself is opaque to
    /// callers.
    pub proof fn lemma_simd_len(self, i: int)
        requires
            self.wf(),
            0 <= i < 16,
        ensures
            self.simd(i).len() == 512,
    {
    }

    /// A fresh register file: every bit of every register is clear.
    pub fn new() -> (r: Self)
        ensures
            r.wf(),
            forall|i: int| 0 <= i < 16 ==> r.simd(i) == Seq::new(512, |j: int| false),
            forall|i: int| 0 <= i < 16 ==> r.gpr_at(i) == 0,
            r.flags_value() == 0,
            r.ip_value() == 0,
    {
        let mut simd_registers: Vec<SIMDRegister> = Vec::new();
        let mut i: usize = 0;
        while i < 16
            invariant
                i <= 16,
                simd_registers@.len() == i,
                forall|j: int|
                    0 <= j < i ==> simd_registers@[j]@ == Seq::new(512, |k: int| false),
            decreases 16 - i,
        {
            simd_registers.push(SIMDRegister::new(512));
            i = i + 1;
        }
        let mut gpr: Vec<GPR> = Vec::new();
        let mut i: usize = 0;
        while i < 16
            invariant
                i <= 16,
                gpr@.len() == i,
                forall|j: int| 0 <= j < i ==> (#[trigger] gpr@[j]).value_spec() == 0,
            decreases 16 - i,
        {
            gpr.push(GPR::new());
            i = i + 1;
        }
        Registers { simd_registers, gpr, rflags: 0u64, rip: 0u64 }
    }

    /// Writes one bit of a vector register through a logical window. A bit
    /// position outside the window's declared width leaves the whole file
    /// unchanged.
    pub fn set_bit(&mut self, reg_type: VecRegName, reg_index: usize, bit_position: usize, value: bool)
        requires
            old(self).wf(),
            reg_index < 16,
        ensures
            final(self).wf(),
            bit_position < window_bits(reg_type) ==> final(self).simd(reg_index as int)
                == old(self).simd(reg_index as int).update(bit_position as int, value),
            bit_position >= window_bits(reg_type) ==> final(self).simd(reg_index as int)
                == old(self).simd(reg_index as int),
            Registers::simd_elsewhere_unchanged(*old(self), *final(self), reg_index as int),
            Registers::scalars_unchanged(*old(self), *final(self)),
    {
        proof {
            assert(self.simd(reg_index as int).len() == 512);
        }
        let w = window_width(reg_type);
        if bit_position < w {
            let cell = &mut self.simd_registers[reg_index];
            cell.set_bit(bit_position, value);
            proof {
                assert forall|j: int| 0 <= j < 16 implies (#[trigger] final(self).simd(j)).len()
                    == 512 by {
                    assert(old(self).simd(j).len() == 512);
                }
            }
        }
    }

    /// Reads one bit of a vector register through a logical window: `Some`
    /// of the bit when the position lies inside the window's declared width,
    /// `None` otherwise.
    pub fn get_bit(&self, reg_type: VecRegName, reg_index: usize, bit_position: usize) -> (r:
        Option<bool>)
        requires
            self.wf(),
            reg_index < 16,
        ensures
            r == (if bit_position < window_bits(reg_type) {
                Some(self.simd(reg_index as int)[bit_position as int])
            } else {
                None::<bool>
            }),
    {
        proof {
            assert(self.simd(reg_index as int).len() == 512);
        }
        let w = window_width(reg_type);
        if bit_position < w {
            let cell = &self.simd_registers[reg_index];
            Some(cell.get_bit(bit_position))
        } else {
            None
        }
    }

    /// Clears every bit of physical vector cell `reg_index`.
    pub fn clear(&mut self, reg_index: usize)
        requires
            old(self).wf(),
            reg_index < 16,
        ensures
            final(self).wf(),
            final(self).simd(reg_index as int) == Seq::new(512, |j: int| false),
            Registers::simd_elsewhere_unchanged(*old(self), *final(self), reg_index as int),
            Registers::scalars_unchanged(*old(self), *final(self)),
    {
        proof {
            assert(self.simd(reg_index as int).len() == 512);
        }
        let cell = &mut self.simd_registers[reg_index];
        cell.clear();
        proof {
            assert forall|j: int| 0 <= j < 16 implies (#[trigger] final(self).simd(j)).len()
                == 512 by {
                assert(old(self).simd(j).len() == 512);
            }
        }
    }

    /// Partitions the full 512-bit cell into `width(T)`-bit sections, least
    /// significant first, and returns the first `window / width(T)` of them.
    pub fn get_by_sections<T: BitCodec>(&self, reg_type: VecRegName, reg_index: usize) -> (r:
        Option<Vec<T>>)
        requires
            self.wf(),
            reg_index < 16,
        ensures
            r is Some,
            r.unwrap()@.len() == window_bits(reg_type) / (T::width() as int),
            forall|k: int|
                0 <= k < r.unwrap()@.len() ==> (#[trigger] r.unwrap()@[k]).bits() == self.simd(
                    reg_index as int,
                ).subrange(k * (T::width() as int), (k + 1) * (T::width() as int)),
    {
        proof {
            T::lemma_width_facts();
            assert(self.simd(reg_index as int).len() == 512);
        }
        let w = T::exec_width();
        let win = window_width(reg_type);
        let n = win / w;
        proof {
            lemma_fundamental_div_mod(win as int, w as int);
            assert(n * w <= win) by (nonlinear_arith)
                requires
                    w > 0,
                    win == (win as int / w as int) * w + (win as int % w as int),
                    n == win as int / w as int,
                    win as int % w as int >= 0,
            ;
        }
        let cell = &self.simd_registers[reg_index];
        let ghost cell_bits = self.simd(reg_index as int);
        let mut out: Vec<T> = Vec::new();
        let mut k: usize = 0;
        while k < n
            invariant
                k <= n,
                0 < w <= 512,
                n * w <= win <= 512,
                n == win as int / w as int,
                cell@ == cell_bits,
                cell_bits.len() == 512,
                out@.len() == k,
                forall|kk: int|
                    0 <= kk < k ==> (#[trigger] out@[kk]).bits() == cell_bits.subrange(
                        kk * (w as int),
                        (kk + 1) * (w as int),
                    ),
                w as nat == T::width(),
            decreases n - k,
        {
            proof {
                assert((k + 1) * w <= n * w) by (nonlinear_arith)
                    requires
                        k < n,
                        w > 0,
                ;
            }
            let mut chunk: Vec<bool> = Vec::new();
            let mut j: usize = 0;
            while j < w
                invariant
                    j <= w,
                    0 < w,
                    (k + 1) * w <= 512,
                    cell@ == cell_bits,
                    cell_bits.len() == 512,
                    chunk@.len() == j,
                    forall|jj: int| 0 <= jj < j ==> chunk@[jj] == cell_bits[k * w + jj],
                decreases w - j,
            {
                proof {
                    assert(k * w + j < (k + 1) * w) by (nonlinear_arith)
                        requires
                            j < w,
                    ;
                }
                chunk.push(cell.get_bit(k * w + j));
                j = j + 1;
            }
            proof {
                assert((k + 1) * (w as int) == k * (w as int) + (w as int)) by (nonlinear_arith);
                assert(chunk@ =~= cell_bits.subrange(k * (w as int), (k + 1) * (w as int)));
            }
            out.push(T::from_bits(&chunk));
            k = k + 1;
        }
        Some(out)
    }

    /// Replaces the contents of physical cell `reg_index` through a logical
    /// window: accepted exactly when the sections' total width equals the
    /// window's width; then the sections fill the low bits of the cell and
    /// every higher bit of the 512-bit cell is cleared. A rejected write
    /// leaves the whole file unchanged.
    pub fn set_by_sections<T: BitCodec>(
        &mut self,
        reg_type: VecRegName,
        reg_index: usize,
        sections: Vec<T>,
    ) -> (ok: bool)
        requires
            old(self).wf(),
            reg_index < 16,
        ensures
            final(self).wf(),
            ok == ((T::width() as int) * sections@.len() == window_bits(reg_type)),
            ok ==> final(self).simd(reg_index as int) == sections_written(
                sections@,
                window_bits(reg_type),
            ),
            !ok ==> final(self).simd(reg_index as int) == old(self).simd(reg_index as int),
            Registers::simd_elsewhere_unchanged(*old(self), *final(self), reg_index as int),
            Registers::scalars_unchanged(*old(self), *final(self)),
    {
        proof {
            T::lemma_width_facts();
            assert(self.simd(reg_index as int).len() == 512);
        }
        let w = T::exec_width();
        let win = window_width(reg_type);
        if sections.len() > 64 {
            proof {
                assert(w as int * sections@.len() > 512) by (nonlinear_arith)
                    requires
                        w >= 8,
                        sections@.len() >= 65,
                ;
            }
            return false;
        }
        proof {
            assert(w as int * sections@.len() <= 512 * 64) by (nonlinear_arith)
                requires
                    w <= 512,
                    sections@.len() <= 64,
            ;
        }
        let total = w * sections.len();
        if total != win {
            return false;
        }
        let mut v: Vec<bool> = Vec::new();
        let mut k: usize = 0;
        while k < sections.len()
            invariant
                k <= sections@.len(),
                0 < w <= 512,
                w as nat == T::width(),
                w * sections@.len() == total <= 512,
                v@.len() == k * w,
                forall|i: int|
                    0 <= i < k * w ==> v@[i] == sections@[i / (w as int)].bits()[i % (w as int)],
            decreases sections@.len() - k,
        {
            proof {
                assert((k + 1) * w <= 512) by (nonlinear_arith)
                    requires
                        k < sections@.len(),
                        w > 0,
                        w * sections@.len() <= 512,
                ;
            }
            let sec = &sections[k];
            let mut j: usize = 0;
            while j < w
                invariant
                    j <= w,
                    0 < w <= 512,
                    w as nat == T::width(),
                    k < sections@.len(),
                    (k + 1) * w <= 512,
                    sec == &sections@[k as int],
                    v@.len() == k * w + j,
                    forall|i: int|
                        0 <= i < k * w ==> v@[i] == sections@[i / (w as int)].bits()[i % (
                        w as int)],
                    forall|jj: int| 0 <= jj < j ==> v@[k * w + jj] == sec.bits()[jj],
                decreases w - j,
            {
                proof {
                    assert(k * w + j < (k + 1) * w) by (nonlinear_arith)
                        requires
                            j < w,
                    ;
                }
                v.push(sec.get_bit(j));
                j = j + 1;
            }
            proof {
                assert((k + 1) * (w as int) == k * (w as int) + (w as int)) by (nonlinear_arith);
                assert forall|i: int| 0 <= i < (k + 1) * w implies v@[i] == sections@[i / (
                w as int)].bits()[i % (w as int)] by {
                    if i >= k * w {
                        lemma_fundamental_div_mod_converse(i, w as int, k as int, i - k * w);
                    }
                }
            }
            k = k + 1;
        }
        proof {
            assert(sections@.len() * (w as int) == (w as int) * sections@.len()) by (nonlinear_arith);
        }
        let mut p: usize = total;
        while p < 512
            invariant
                total <= p <= 512,
                v@.len() == p,
                forall|i: int|
                    0 <= i < total ==> v@[i] == sections@[i / (w as int)].bits()[i % (w as int)],
                forall|i: int| total <= i < p ==> v@[i] == false,
            decreases 512 - p,
        {
            v.push(false);
            p = p + 1;
        }
        let cell = &mut self.simd_registers[reg_index];
        cell.write_all(&v);
        proof {
            assert forall|j: int| 0 <= j < 16 implies (#[trigger] final(self).simd(j)).len()
                == 512 by {
                assert(old(self).simd(j).len() == 512);
            }
            assert(final(self).simd(reg_index as int) =~= sections_written(
                sections@,
                window_bits(reg_type),
            ));
        }
        true
    }


    /// Reads a range of the raw 512-bit cell through a bit-range selector.
    /// The window argument is accepted for API symmetry but not consulted:
    /// selectors always address the physical cell directly. The selector's
    /// high bound must not lie below its low bound, and the range must fit
    /// in `T`'s width.
    pub fn get_by_selector<T: BitCodec>(
        &self,
        _reg_type: VecRegName,
        reg_index: usize,
        selector: &str,
    ) -> (r: Option<T>)
        requires
            self.wf(),
            reg_index < 16,
            spec_parse_selector(selector@) matches Some(ab) ==> ab.1 <= ab.0 && ab.0 - ab.1
                < T::width(),
        ensures
            spec_parse_selector(selector@) is None ==> r is None,
            spec_parse_selector(selector@) matches Some(ab) ==> r matches Some(t) && forall|j: int|
                0 <= j < T::width() ==> (#[trigger] t.bits()[j]) == (ab.1 + j <= ab.0 && ab.1 + j
                    < 512 && self.simd(reg_index as int)[ab.1 + j]),
    {
        match parse_selector(selector) {
            Some((a, b)) => {
                proof {
                    assert(self.simd(reg_index as int).len() == 512);
                }
                let cell = &self.simd_registers[reg_index];
                Some(cell.get_by_index::<T>(b, a))
            },
            None => None,
        }
    }

    /// Writes a range of the raw 512-bit cell through a bit-range selector;
    /// returns whether the selector parsed. The window argument is accepted
    /// for API symmetry but not consulted. Inside the range, bits past the
    /// value's declared width are forced clear; bits outside it keep their
    /// values. The selector's high bound must not lie below its low bound.
    pub fn set_by_selector<T: BitCodec>(
        &mut self,
        _reg_type: VecRegName,
        reg_index: usize,
        selector: &str,
        value: T,
    ) -> (ok: bool)
        requires
            old(self).wf(),
            reg_index < 16,
            spec_parse_selector(selector@) matches Some(ab) ==> ab.1 <= ab.0,
        ensures
            final(self).wf(),
            ok == (spec_parse_selector(selector@) is Some),
            spec_parse_selector(selector@) is None ==> final(self).simd(reg_index as int) == old(
                self,
            ).simd(reg_index as int),
            spec_parse_selector(selector@) matches Some(ab) ==> forall|p: int|
                0 <= p < 512 ==> (#[trigger] final(self).simd(reg_index as int)[p]) == (if ab.1
                    <= p <= ab.0 {
                    p - ab.1 < T::width() && value.bits()[p - ab.1]
                } else {
                    old(self).simd(reg_index as int)[p]
                }),
            Registers::simd_elsewhere_unchanged(*old(self), *final(self), reg_index as int),
            Registers::scalars_unchanged(*old(self), *final(self)),
    {
        proof {
            assert(self.simd(reg_index as int).len() == 512);
        }
        match parse_selector(selector) {
            Some((a, b)) => {
                let cell = &mut self.simd_registers[reg_index];
                cell.set_by_index::<T>(b, a, &value);
                proof {
                    assert forall|j: int| 0 <= j < 16 implies (#[trigger] final(self).simd(
                        j,
                    )).len() == 512 by {
                        assert(old(self).simd(j).len() == 512);
                    }
                }
                true
            },
            None => false,
        }
    }

    /// Writes a general-purpose register through the view its symbolic name
    /// selects; the value is masked to the view's width, never validated.
    pub fn set_gpr_value(&mut self, reg_name: GPRName, value: u64)
        requires
            old(self).wf(),
        ensures
            final(self).wf(),
            final(self).gpr_at(gpr_phys(reg_name)) == spec_gpr_write(
                old(self).gpr_at(gpr_phys(reg_name)),
                reg_name,
                value,
            ),
            forall|j: int|
                0 <= j < 16 && j != gpr_phys(reg_name) ==> final(self).gpr_at(j) == old(
                    self,
                ).gpr_at(j),
            Registers::simd_unchanged(*old(self), *final(self)),
            final(self).flags_value() == old(self).flags_value(),
            final(self).ip_value() == old(self).ip_value(),
    {
        let idx = gpr_index(reg_name);
        let cur = self.gpr[idx].get_value();
        let newv: u64 = match reg_name {
            GPRName::EAX => value & 0x0000_0000_FFFF_FFFFu64,
            GPRName::AX => (cur & 0xFFFF_FFFF_FFFF_0000u64) | (value & 0x0000_0000_0000_FFFFu64),
            GPRName::AL => (cur & 0xFFFF_FFFF_FFFF_FF00u64) | (value & 0x0000_0000_0000_00FFu64),
            GPRName::AH => (cur & 0xFFFF_FFFF_FFFF_00FFu64) | ((value << 8u64)
                & 0x0000_0000_0000_FF00u64),
            _ => value,
        };
        let slot = &mut self.gpr[idx];
        slot.set_value(newv);
        proof {
            assert forall|j: int| 0 <= j < 16 implies (#[trigger] final(self).simd(j)).len()
                == 512 by {
                assert(old(self).simd(j).len() == 512);
            }
        }
    }

    /// Reads a general-purpose register through the view its symbolic name
    /// selects.
    pub fn get_gpr_value(&self, reg_name: GPRName) -> (v: u64)
        requires
            self.wf(),
        ensures
            v == spec_gpr_read(self.gpr_at(gpr_phys(reg_name)), reg_name),
    {
        let idx = gpr_index(reg_name);
        let stored = self.gpr[idx].get_value();
        match reg_name {
            GPRName::EAX => stored & 0x0000_0000_FFFF_FFFFu64,
            GPRName::AX => stored & 0x0000_0000_0000_FFFFu64,
            GPRName::AL => stored & 0x0000_0000_0000_00FFu64,
            GPRName::AH => (stored & 0x0000_0000_0000_FF00u64) >> 8u64,
            _ => stored,
        }
    }

    /// Writes the flags register through the view its symbolic name selects.
    pub fn set_flags_value(&mut self, reg_name: FLAGSName, value: u64)
        requires
            old(self).wf(),
        ensures
            final(self).wf(),
            final(self).flags_value() == spec_flags_write(
                old(self).flags_value(),
                reg_name,
                value,
            ),
            forall|j: int| 0 <= j < 16 ==> final(self).gpr_at(j) == old(self).gpr_at(j),
            Registers::simd_unchanged(*old(self), *final(self)),
            final(self).ip_value() == old(self).ip_value(),
    {
        match reg_name {
            FLAGSName::RFLAGS => {
                self.rflags = value;
            },
            FLAGSName::EFLAGS => {
                self.rflags = (self.rflags & 0xFFFF_FFFF_0000_0000u64) | (value
                    & 0x0000_0000_FFFF_FFFFu64);
            },
            FLAGSName::FLAGS => {
                self.rflags = (self.rflags & 0xFFFF_FFFF_FFFF_0000u64) | (value
                    & 0x0000_0000_0000_FFFFu64);
            },
        }
        proof {
            assert forall|j: int| 0 <= j < 16 implies (#[trigger] final(self).simd(j)).len()
                == 512 by {
                assert(old(self).simd(j).len() == 512);
            }
        }
    }

    /// Reads the flags register through the view its symbolic name selects.
    pub fn get_flags_value(&self, reg_name: FLAGSName) -> (v: u64)
        requires
            self.wf(),
        ensures
            v == spec_flags_read(self.flags_value(), reg_name),
    {
        match reg_name {
            FLAGSName::RFLAGS => self.rflags,
            FLAGSName::EFLAGS => self.rflags & 0x0000_0000_FFFF_FFFFu64,
            FLAGSName::FLAGS => self.rflags & 0x0000_0000_0000_FFFFu64,
        }
    }

    /// Writes the instruction pointer through the view its symbolic name
    /// selects.
    pub fn set_ip_value(&mut self, reg_name: IPName, value: u64)
        requires
            old(self).wf(),
        ensures
            final(self).wf(),
            final(self).ip_value() == spec_ip_write(old(self).ip_value(), reg_name, value),
            forall|j: int| 0 <= j < 16 ==> final(self).gpr_at(j) == old(self).gpr_at(j),
            Registers::simd_unchanged(*old(self), *final(self)),
            final(self).flags_value() == old(self).flags_value(),
    {
        match reg_name {
            IPName::RIP => {
                self.rip = value;
            },
            IPName::EIP => {
                self.rip = (self.rip & 0xFFFF_FFFF_0000_0000u64) | (value
                    & 0x0000_0000_FFFF_FFFFu64);
            },
            IPName::IP => {
                self.rip = (self.rip & 0xFFFF_FFFF_FFFF_0000u64) | (value
                    & 0x0000_0000_0000_FFFFu64);
            },
        }
        proof {
            assert forall|j: int| 0 <= j < 16 implies (#[trigger] final(self).simd(j)).len()
                == 512 by {
                assert(old(self).simd(j).len() == 512);
            }
        }
    }

    /// Reads the instruction pointer through the view its symbolic name
    /// selects.
    pub fn get_ip_value(&self, reg_name: IPName) -> (v: u64)
        requires
            self.wf(),
        ensures
            v == spec_ip_read(self.ip_value(), reg_name),
    {
        match reg_name {
            IPName::RIP => self.rip,
            IPName::EIP => self.rip & 0x0000_0000_FFFF_FFFFu64,
            IPName::IP => self.rip & 0x0000_0000_0000_FFFFu64,
        }
    }
}

/// Law: writing the low-32 view zero-extends. After writing `v` through EAX,
/// reading the full RAX yields exactly the low 32 bits of `v`; for `v` of
/// width 32 that is `v` itself, the upper 32 bits cleared.
pub proof fn lemma_gpr_low32_zero_extends(prev: u64, v: u64)
    ensures
        spec_gpr_read(spec_gpr_write(prev, GPRName::EAX, v), GPRName::RAX) == (v
            & 0x0000_0000_FFFF_FFFFu64),
        v < 0x1_0000_0000 ==> spec_gpr_read(spec_gpr_write(prev, GPRName::EAX, v), GPRName::RAX)
            == v,
{
    assert(v < 0x1_0000_0000 ==> (v & 0x0000_0000_FFFF_FFFFu64) == v) by (bit_vector);
}

/// Law: writing the low-8 view merges. Writing any value through AL leaves
/// the upper 56 bits of the backing register unchanged.
pub proof fn lemma_gpr_low8_merges(prev: u64, v: u64)
    ensures
        spec_gpr_write(prev, GPRName::AL, v) & 0xFFFF_FFFF_FFFF_FF00u64 == prev
            & 0xFFFF_FFFF_FFFF_FF00u64,
{
    let written = (prev & 0xFFFF_FFFF_FFFF_FF00u64) | (v & 0x0000_0000_0000_00FFu64);
    assert(written & 0xFFFF_FFFF_FFFF_FF00u64 == prev & 0xFFFF_FFFF_FFFF_FF00u64) by (bit_vector)
        requires
            written == (prev & 0xFFFF_FFFF_FFFF_FF00u64) | (v & 0x0000_0000_0000_00FFu64),
    ;
}

/// The contents of a 512-bit cell after a window write of the sections `xs`,
/// each `T::width()` bits wide, filling the window from its least significant
/// bit; every bit of the cell at or above the window's width is clear.
pub open spec fn sections_written<T: BitCodec>(xs: Seq<T>, window: int) -> Seq<bool> {
    Seq::new(
        512,
        |j: int|
            j < window && xs[j / (T::width() as int)].bits()[j % (T::width() as int)],
    )
}


/// What reading one bit through a logical window yields: `Some` of the bit
/// when the position lies inside the window's declared width, else `None`.
pub open spec fn spec_get_bit(cell: Seq<bool>, w: VecRegName, pos: int) -> Option<bool> {
    if 0 <= pos < window_bits(w) {
        Some(cell[pos])
    } else {
        None
    }
}

/// Law: the logical windows alias one physical cell. Setting a bit through
/// one window makes it visible through every window wide enough to reach it,
/// while a window too narrow reports the position as invalid.
pub proof fn lemma_window_aliasing(cell: Seq<bool>, w1: VecRegName, w2: VecRegName, p: int, v: bool)
    requires
        cell.len() == 512,
        0 <= p < window_bits(w1),
    ensures
        spec_get_bit(cell.update(p, v), w2, p) == (if p < window_bits(w2) {
            Some(v)
        } else {
            None::<bool>
        }),
{
}

/// Law: window writes round-trip. If a cell was written through a window by
/// the sections `xs` (accepted, so their total width equals the window's),
/// then reading that window back in `T`-wide sections yields exactly `xs`,
/// and every bit of the cell above the window reads as clear.
pub proof fn lemma_sections_round_trip<T: BitCodec>(
    xs: Seq<T>,
    ys: Seq<T>,
    cell: Seq<bool>,
    w: VecRegName,
)
    requires
        (T::width() as int) * xs.len() == window_bits(w),
        cell == sections_written(xs, window_bits(w)),
        ys.len() == window_bits(w) / (T::width() as int),
        forall|k: int|
            0 <= k < ys.len() ==> (#[trigger] ys[k]).bits() == cell.subrange(
                k * (T::width() as int),
                (k + 1) * (T::width() as int),
            ),
    ensures
        ys == xs,
        forall|j: int| window_bits(w) <= j < 512 ==> !cell[j],
{
    let wi = T::width() as int;
    T::lemma_width_facts();
    let win = window_bits(w);
    assert(xs.len() * wi == win) by (nonlinear_arith)
        requires
            wi * xs.len() == win,
    ;
    lemma_fundamental_div_mod_converse(win, wi, xs.len() as int, 0);
    assert(ys.len() == xs.len());
    assert forall|k: int| 0 <= k < xs.len() implies ys[k] == xs[k] by {
        T::lemma_bits_len(&xs[k]);
        T::lemma_bits_len(&ys[k]);
        assert((k + 1) * wi == k * wi + wi) by (nonlinear_arith);
        assert((k + 1) * wi <= xs.len() * wi) by (nonlinear_arith)
            requires
                k < xs.len(),
                wi > 0,
        ;
        assert forall|j: int| 0 <= j < wi implies ys[k].bits()[j] == xs[k].bits()[j] by {
            lemma_fundamental_div_mod_converse(k * wi + j, wi, k, j);
            assert(ys[k].bits()[j] == cell[k * wi + j]);
        }
        assert(ys[k].bits() =~= xs[k].bits());
        T::lemma_bits_inj(&ys[k], &xs[k]);
    }
    assert(ys =~= xs);
}

} // verus!
