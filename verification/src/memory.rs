//! Sparse byte-addressable memory over an arbitrary base offset. Storage is
//! allocated lazily in 512-byte chunks aligned to the chunk size, kept in an
//! address-sorted segment list, and byte-adjacent segments are coalesced on
//! every write. Unmapped addresses read as zero, never as an error. Typed
//! multi-width reads and writes decompose into little-endian byte traffic.

use vstd::prelude::*;

use crate::codec::BitCodec;
use vstd::arithmetic::div_mod::{lemma_fundamental_div_mod, lemma_fundamental_div_mod_converse};

verus! {

/// Size in bytes of one allocation chunk; every segment starts on a multiple
/// of it and spans a positive multiple of it.
pub const DEFAULT_SIZE: usize = 512;

/// An owned contiguous run of bytes with a start address already translated
/// relative to the memory's base.
struct MemorySegment {
    start_address: usize,
    data: Vec<u8>,
}

/// The sparse memory: lazily allocated, address-sorted, self-merging
/// segments over a base address subtracted from every incoming address.
pub struct Memory {
    segments: Vec<MemorySegment>,
    base_address: usize,
}

/// The segment covers translated address `a`.
spec fn seg_contains(s: MemorySegment, a: int) -> bool {
    s.start_address <= a < s.start_address + s.data@.len()
}

/// The byte a segment list serves at translated address `a`: the byte of
/// the first segment covering `a`, or zero when none does.
spec fn bytes_in(ss: Seq<MemorySegment>, a: int) -> u8
    decreases ss.len(),
{
    if ss.len() == 0 {
        0
    } else if seg_contains(ss[0], a) {
        ss[0].data@[a - ss[0].start_address]
    } else {
        bytes_in(ss.subrange(1, ss.len() as int), a)
    }
}

/// A single segment is well-formed: chunk-aligned start, a positive
/// chunk-multiple length, and an end that fits the address space.
spec fn seg_wf(s: MemorySegment) -> bool {
    &&& s.start_address % 512 == 0
    &&& s.data@.len() % 512 == 0
    &&& s.data@.len() > 0
    &&& s.start_address + s.data@.len() <= usize::MAX
}

/// Segments are sorted by address and never overlap.
spec fn segs_ordered(ss: Seq<MemorySegment>) -> bool {
    forall|k: int|
        0 <= k < ss.len() - 1 ==> (#[trigger] ss[k]).start_address + ss[k].data@.len()
            <= ss[k + 1].start_address
}

/// No two neighbouring segments are byte-adjacent: coalescing is complete.
spec fn segs_packed(ss: Seq<MemorySegment>) -> bool {
    forall|k: int|
        0 <= k < ss.len() - 1 ==> (#[trigger] ss[k]).start_address + ss[k].data@.len()
            < ss[k + 1].start_address
}

/// Every segment is well-formed.
spec fn segs_all_wf(ss: Seq<MemorySegment>) -> bool {
    forall|k: int| 0 <= k < ss.len() ==> seg_wf(#[trigger] ss[k])
}

impl Memory {
    /// The base address subtracted from every address passed in.
    pub closed spec fn base(self) -> usize {
        self.base_address
    }

    /// Well-formed: the segment list is sorted, non-overlapping, fully
    /// coalesced, and each segment is chunk-aligned and chunk-sized.
    pub closed spec fn wf(self) -> bool {
        &&& segs_all_wf(self.segments@)
        &&& segs_ordered(self.segments@)
        &&& segs_packed(self.segments@)
    }

    /// The byte stored at translated address `a`; zero when unmapped.
    pub closed spec fn byte_at(self, a: int) -> u8 {
        bytes_in(self.segments@, a)
    }

    /// The allocated segments as (start address, length) pairs, sorted.
    pub closed spec fn seg_ranges(self) -> Seq<(usize, usize)> {
        Seq::new(
            self.segments@.len(),
            |k: int|
                (
                    self.segments@[k].start_address,
                    self.segments@[k].data@.len() as usize,
                ),
        )
    }

    /// A fresh memory over base address `base`: nothing is allocated and
    /// every address reads as zero.
    pub fn new(base: usize) -> (r: Memory)
        ensures
            r.wf(),
            r.base() == base,
            forall|a: int| r.byte_at(a) == 0,
            r.seg_ranges().len() == 0,
    {
        let r = Memory { segments: Vec::new(), base_address: base };
        proof {
            assert(forall|a: int| bytes_in(r.segments@, a) == 0);
        }
        r
    }

    /// The index of the first segment covering `real_address`, if any; with
    /// a well-formed list it is the only one.
    fn find_segment(&self, real_address: usize) -> (r: Option<usize>)
        ensures
            match r {
                Some(i) => i < self.segments@.len() && seg_contains(
                    self.segments@[i as int],
                    real_address as int,
                ) && forall|k: int|
                    0 <= k < i ==> !seg_contains(self.segments@[k], real_address as int),
                None => forall|k: int|
                    0 <= k < self.segments@.len() ==> !seg_contains(
                        self.segments@[k],
                        real_address as int,
                    ),
            },
    {
        let n = self.segments.len();
        let mut i: usize = 0;
        while i < n
            invariant
                i <= n,
                n == self.segments@.len(),
                forall|k: int| 0 <= k < i ==> !seg_contains(self.segments@[k], real_address as int),
            decreases n - i,
        {
            let s = &self.segments[i];
            if real_address >= s.start_address && real_address - s.start_address < s.data.len() {
                return Some(i);
            }
            i = i + 1;
        }
        None
    }

    /// Reads the byte at `address`: the stored byte when the translated
    /// address falls in a segment, zero otherwise.
    pub fn read_byte(&self, address: usize) -> (b: u8)
        requires
            self.wf(),
            address >= self.base(),
        ensures
            b == self.byte_at(address - self.base()),
    {
        let real_address = address - self.base_address;
        match self.find_segment(real_address) {
            Some(i) => {
                let s = &self.segments[i];
                proof {
                    lemma_bytes_in_first_match(self.segments@, i as int, real_address as int);
                }
                s.data[real_address - s.start_address]
            },
            None => {
                proof {
                    lemma_bytes_in_no_match(self.segments@, real_address as int);
                }
                0
            },
        }
    }

    /// How many segments are allocated.
    pub fn segment_count(&self) -> (n: usize)
        ensures
            n == self.seg_ranges().len(),
    {
        self.segments.len()
    }

    /// The translated start address and byte length of segment `i`.
    pub fn segment_range(&self, i: usize) -> (r: (usize, usize))
        requires
            i < self.seg_ranges().len(),
        ensures
            r == self.seg_ranges()[i as int],
    {
        let s = &self.segments[i];
        (s.start_address, s.data.len())
    }
}

impl Memory {
    /// Writes the byte at `address`. A hit mutates the stored byte in
    /// place; a miss allocates a zero-filled, chunk-aligned 512-byte
    /// segment, sets the byte, and inserts the segment in address order.
    /// Either way, byte-adjacent segments are then coalesced.
    pub fn write_byte(&mut self, address: usize, value: u8)
        requires
            old(self).wf(),
            address >= old(self).base(),
            address - old(self).base() <= usize::MAX - 512,
        ensures
            final(self).wf(),
            final(self).base() == old(self).base(),
            forall|a: int|
                final(self).byte_at(a) == (if a == address - old(self).base() {
                    value
                } else {
                    old(self).byte_at(a)
                }),
    {
        let real_address = address - self.base_address;
        let ghost ss0 = self.segments@;
        match self.find_segment(real_address) {
            Some(i) => {
                let start = self.segments[i].start_address;
                let seg = &mut self.segments[i];
                seg.data[real_address - start] = value;
                proof {
                    let ss1 = self.segments@;
                    assert(ss1 =~= ss0.update(i as int, ss1[i as int]));
                    assert forall|a: int|
                        bytes_in(ss1, a) == (if a == real_address as int {
                            value
                        } else {
                            bytes_in(ss0, a)
                        }) by {
                        lemma_bytes_in_update(ss0, ss1, i as int, real_address as int, value, a);
                    }
                    assert(segs_all_wf(ss1) && segs_ordered(ss1) && segs_packed(ss1)) by {
                        assert(forall|k: int|
                            0 <= k < ss1.len() ==> (#[trigger] ss1[k]).start_address
                                == ss0[k].start_address && ss1[k].data@.len() == ss0[k].data@.len());
                        assert(forall|k: int|
                            0 <= k < ss1.len() ==> seg_wf(ss0[k]) ==> seg_wf(#[trigger] ss1[k]));
                    }
                }
            },
            None => {
                let adjusted = (real_address / DEFAULT_SIZE) * DEFAULT_SIZE;
                proof {
                    lemma_fundamental_div_mod(real_address as int, 512);
                }
                let mut new_data = zero_chunk();
                new_data[real_address - adjusted] = value;
                let new_segment = MemorySegment { start_address: adjusted, data: new_data };
                let pos = self.find_insert_pos(adjusted);
                proof {
                    assert(seg_wf(new_segment)) by {
                        vstd::arithmetic::div_mod::lemma_mod_multiples_basic(
                            real_address as int / 512,
                            512,
                        );
                    }
                    assert forall|k: int, x: int|
                        #![trigger seg_contains(ss0[k], x)]
                        0 <= k < ss0.len() && adjusted <= x < adjusted + 512 implies !seg_contains(
                        ss0[k],
                        x,
                    ) by {
                        lemma_aligned_chunk_free(ss0[k], adjusted as int, real_address as int, x);
                    }
                }
                self.segments.insert(pos, new_segment);
                proof {
                    let ss1 = self.segments@;
                    assert(ss1 == ss0.insert(pos as int, new_segment));
                    // every address: the new chunk serves its own bytes, all
                    // previously zero; everything else is untouched
                    assert forall|a: int|
                        bytes_in(ss1, a) == (if a == real_address as int {
                            value
                        } else {
                            bytes_in(ss0, a)
                        }) by {
                        lemma_bytes_in_insert(ss0, pos as int, new_segment, a);
                        if seg_contains(new_segment, a) {
                            assert(forall|k: int|
                                0 <= k < ss0.len() ==> !seg_contains(#[trigger] ss0[k], a));
                            lemma_bytes_in_no_match(ss0, a);
                        } else {
                            assert(a != real_address as int);
                        }
                    }
                    // the list stays well-formed and ordered: the chunk sits
                    // strictly between its neighbours
                    assert(segs_all_wf(ss1)) by {
                        assert(forall|k: int|
                            0 <= k < ss1.len() ==> ss1[k] == (if k < pos as int {
                                ss0[k]
                            } else if k == pos as int {
                                new_segment
                            } else {
                                ss0[k - 1]
                            }));
                    }
                    assert(segs_ordered(ss1)) by {
                        lemma_insert_ordered(ss0, pos as int, new_segment, real_address as int);
                    }
                }
            },
        }
        self.coalesce();
    }
}

/// When the first `i` segments miss `a` and segment `i` covers it, the
/// served byte comes from segment `i`.
proof fn lemma_bytes_in_first_match(ss: Seq<MemorySegment>, i: int, a: int)
    requires
        0 <= i < ss.len(),
        seg_contains(ss[i], a),
        forall|k: int| 0 <= k < i ==> !seg_contains(ss[k], a),
    ensures
        bytes_in(ss, a) == ss[i].data@[a - ss[i].start_address],
    decreases i,
{
    if i > 0 {
        let tail = ss.subrange(1, ss.len() as int);
        assert(forall|k: int| 0 <= k < i - 1 ==> !seg_contains(#[trigger] tail[k], a));
        lemma_bytes_in_first_match(tail, i - 1, a);
    }
}

/// A fresh zero-filled chunk of 512 bytes.
fn zero_chunk() -> (v: Vec<u8>)
    ensures
        v@ == Seq::new(512, |i: int| 0u8),
{
    let mut v: Vec<u8> = Vec::new();
    let mut i: usize = 0;
    while i < 512
        invariant
            i <= 512,
            v@.len() == i,
            forall|j: int| 0 <= j < i ==> v@[j] == 0u8,
        decreases 512 - i,
    {
        v.push(0);
        i = i + 1;
    }
    proof {
        assert(v@ =~= Seq::new(512, |j: int| 0u8));
    }
    v
}

impl Memory {
    /// The index where a segment starting at `adjusted` belongs: after every
    /// segment starting at or before it, before every one starting above it.
    fn find_insert_pos(&self, adjusted: usize) -> (pos: usize)
        requires
            segs_all_wf(self.segments@),
            segs_ordered(self.segments@),
        ensures
            pos <= self.segments@.len(),
            forall|k: int|
                0 <= k < pos ==> (#[trigger] self.segments@[k]).start_address <= adjusted,
            forall|k: int|
                pos <= k < self.segments@.len() ==> (#[trigger] self.segments@[k]).start_address
                    > adjusted,
    {
        let n = self.segments.len();
        let mut i: usize = 0;
        while i < n && self.segments[i].start_address <= adjusted
            invariant
                i <= n,
                n == self.segments@.len(),
                forall|k: int|
                    0 <= k < i ==> (#[trigger] self.segments@[k]).start_address <= adjusted,
            decreases n - i,
        {
            i = i + 1;
        }
        proof {
            assert forall|k: int|
                i <= k < self.segments@.len() implies (#[trigger] self.segments@[
            k]).start_address > adjusted by {
                if k > i {
                    lemma_ordered_starts(self.segments@, i as int, k);
                    assert(seg_wf(self.segments@[i as int]));
                }
            }
        }
        i
    }

    /// Merges the byte-adjacent segment pair at `i` into one segment.
    #[verifier::rlimit(100)]
    fn merge_step(&mut self, i: usize)
        requires
            segs_all_wf(old(self).segments@),
            segs_ordered(old(self).segments@),
            i + 1 < old(self).segments@.len(),
            old(self).segments@[i as int].start_address + old(self).segments@[
                i as int
            ].data@.len() == old(self).segments@[i as int + 1].start_address,
            forall|k: int|
                0 <= k < i && k < old(self).segments@.len() - 1
                    ==> (#[trigger] old(self).segments@[k]).start_address
                    + old(self).segments@[k].data@.len()
                    < old(self).segments@[k + 1].start_address,
        ensures
            segs_all_wf(final(self).segments@),
            segs_ordered(final(self).segments@),
            final(self).segments@.len() == old(self).segments@.len() - 1,
            final(self).base_address == old(self).base_address,
            forall|k: int|
                0 <= k < i && k < final(self).segments@.len() - 1
                    ==> (#[trigger] final(self).segments@[k]).start_address
                    + final(self).segments@[k].data@.len()
                    < final(self).segments@[k + 1].start_address,
            forall|a: int|
                bytes_in(final(self).segments@, a) == bytes_in(old(self).segments@, a),
    {
        let ghost ss = self.segments@;
        let n = self.segments.len();
        let mut next = self.segments.remove(i + 1);
        let seg = &mut self.segments[i];
        seg.data.append(&mut next.data);
        proof {
            let ss1 = self.segments@;
            assert(ss1.len() == ss.len() - 1);
            assert(forall|k: int| 0 <= k < i as int ==> ss1[k] == ss[k]);
            assert(ss1[i as int].start_address == ss[i as int].start_address);
            assert(ss1[i as int].data@ == ss[i as int].data@ + ss[i as int + 1].data@);
            assert(forall|k: int| (i as int) < k < ss1.len() ==> ss1[k] == ss[k + 1]);
            lemma_coalesce_step(ss, ss1, i as int);
        }
    }

    /// One left-to-right pass that merges every byte-adjacent pair of
    /// segments into one, leaving the list fully coalesced. The bytes
    /// served at every address are untouched.
    #[verifier::rlimit(100)]
    fn coalesce(&mut self)
        requires
            segs_all_wf(old(self).segments@),
            segs_ordered(old(self).segments@),
        ensures
            final(self).wf(),
            final(self).base() == old(self).base(),
            forall|a: int| final(self).byte_at(a) == old(self).byte_at(a),
    {
        let ghost orig = self.segments@;
        let mut i: usize = 0;
        loop
            invariant
                segs_all_wf(self.segments@),
                segs_ordered(self.segments@),
                i <= self.segments@.len(),
                self.base_address == old(self).base_address,
                forall|k: int|
                    0 <= k < i && k < self.segments@.len() - 1 ==> (
                    #[trigger] self.segments@[k]).start_address + self.segments@[k].data@.len()
                        < self.segments@[k + 1].start_address,
                forall|a: int| bytes_in(self.segments@, a) == bytes_in(orig, a),
            ensures
                segs_all_wf(self.segments@),
                segs_ordered(self.segments@),
                segs_packed(self.segments@),
                self.base_address == old(self).base_address,
                forall|a: int| bytes_in(self.segments@, a) == bytes_in(orig, a),
            decreases self.segments@.len() - i,
        {
            let n = self.segments.len();
            if n - i < 2 {
                proof {
                    assert forall|k: int|
                        0 <= k < self.segments@.len() - 1 implies (
                    #[trigger] self.segments@[k]).start_address + self.segments@[k].data@.len()
                        < self.segments@[k + 1].start_address by {
                        assert(k < i);
                    }
                }
                break;
            }
            let ghost ss = self.segments@;
            proof {
                assert(seg_wf(ss[i as int]));
                assert(seg_wf(ss[i as int + 1]));
            }
            let end = self.segments[i].start_address + self.segments[i].data.len();
            if end == self.segments[i + 1].start_address {
                let ghost pre = self.segments@;
                self.merge_step(i);
                proof {
                    assert forall|a: int| bytes_in(self.segments@, a) == bytes_in(orig, a) by {
                        assert(bytes_in(self.segments@, a) == bytes_in(pre, a));
                    }
                }
            } else {
                proof {
                    assert(ss[i as int].start_address + ss[i as int].data@.len() < ss[i as int
                        + 1].start_address);
                }
                i = i + 1;
            }
        }
    }
}

/// One merge step of the coalescing pass: replacing the byte-adjacent pair
/// at `i` by their concatenation keeps the list well-formed, ordered and
/// byte-for-byte equal, and keeps every pair before `i` non-adjacent.
proof fn lemma_coalesce_step(ss: Seq<MemorySegment>, ss1: Seq<MemorySegment>, i: int)
    requires
        segs_all_wf(ss),
        segs_ordered(ss),
        0 <= i,
        i + 1 < ss.len(),
        ss[i].start_address + ss[i].data@.len() == ss[i + 1].start_address,
        ss1.len() == ss.len() - 1,
        forall|k: int| 0 <= k < i ==> ss1[k] == ss[k],
        ss1[i].start_address == ss[i].start_address,
        ss1[i].data@ == ss[i].data@ + ss[i + 1].data@,
        forall|k: int| i < k < ss1.len() ==> ss1[k] == ss[k + 1],
        forall|k: int|
            0 <= k < i && k < ss.len() - 1 ==> (#[trigger] ss[k]).start_address
                + ss[k].data@.len() < ss[k + 1].start_address,
    ensures
        segs_all_wf(ss1),
        segs_ordered(ss1),
        forall|a: int| bytes_in(ss1, a) == bytes_in(ss, a),
        forall|k: int|
            0 <= k < i && k < ss1.len() - 1 ==> (#[trigger] ss1[k]).start_address
                + ss1[k].data@.len() < ss1[k + 1].start_address,
{
    assert forall|a: int| bytes_in(ss1, a) == bytes_in(ss, a) by {
        lemma_bytes_in_merge(ss, ss1, i, a);
    }
    assert(segs_all_wf(ss1)) by {
        assert forall|k: int| 0 <= k < ss1.len() implies seg_wf(#[trigger] ss1[k]) by {
            if k < i {
                assert(ss1[k] == ss[k]);
            } else if k == i {
                assert(seg_wf(ss[k]) && seg_wf(ss[k + 1]));
                vstd::arithmetic::div_mod::lemma_add_mod_noop(
                    ss[k].data@.len() as int,
                    ss[k + 1].data@.len() as int,
                    512,
                );
            } else {
                assert(ss1[k] == ss[k + 1]);
            }
        }
    }
    assert(segs_ordered(ss1)) by {
        assert forall|k: int|
            0 <= k < ss1.len() - 1 implies (#[trigger] ss1[k]).start_address
            + ss1[k].data@.len() <= ss1[k + 1].start_address by {
            if k < i - 1 {
                assert(ss1[k] == ss[k] && ss1[k + 1] == ss[k + 1]);
            } else if k == i - 1 {
                assert(ss1[k] == ss[k]);
            } else if k == i {
                assert(ss1[k + 1] == ss[k + 2]);
            } else {
                assert(ss1[k] == ss[k + 1] && ss1[k + 1] == ss[k + 2]);
            }
        }
    }
    assert forall|k: int|
        0 <= k < i && k < ss1.len() - 1 implies (#[trigger] ss1[k]).start_address
        + ss1[k].data@.len() < ss1[k + 1].start_address by {
        if k < i - 1 {
            assert(ss1[k] == ss[k] && ss1[k + 1] == ss[k + 1]);
        } else {
            assert(ss1[k] == ss[k]);
            assert(ss1[k + 1].start_address == ss[k + 1].start_address);
        }
    }
}

impl Memory {
    /// Reads a `T`-wide value at `address`: `width(T) / 8` successive bytes,
    /// assembled little-endian (byte `k` supplies bits `8k` to `8k + 7`).
    pub fn read<T: BitCodec>(&self, address: usize) -> (r: T)
        requires
            self.wf(),
            address >= self.base(),
            address + T::width() / 8 - 1 <= usize::MAX,
        ensures
            r.bits() == Seq::new(
                T::width(),
                |i: int| self.byte_at(address - self.base() + i / 8).bits()[i % 8],
            ),
    {
        proof {
            T::lemma_width_facts();
            lemma_fundamental_div_mod(T::width() as int, 8);
        }
        let w = T::exec_width();
        let size = w / 8;
        let ghost off0 = address - self.base() as int;
        let mut bits: Vec<bool> = Vec::new();
        let mut k: usize = 0;
        while k < size
            invariant
                k <= size,
                size == T::width() / 8,
                w == T::width(),
                8 * size == w,
                self.wf(),
                address >= self.base(),
                address + size - 1 <= usize::MAX,
                off0 == address - self.base(),
                bits@.len() == 8 * k,
                forall|ii: int|
                    0 <= ii < 8 * k ==> bits@[ii] == self.byte_at(off0 + ii / 8).bits()[ii % 8],
            decreases size - k,
        {
            let b = self.read_byte(address + k);
            let mut j: usize = 0;
            while j < 8
                invariant
                    j <= 8,
                    b == self.byte_at(off0 + k),
                    bits@.len() == 8 * k + j,
                    forall|ii: int|
                        0 <= ii < 8 * k ==> bits@[ii] == self.byte_at(off0 + ii / 8).bits()[ii
                            % 8],
                    forall|jj: int| 0 <= jj < j ==> bits@[8 * k + jj] == b.bits()[jj],
                decreases 8 - j,
            {
                bits.push(b.get_bit(j));
                j = j + 1;
            }
            proof {
                assert forall|ii: int|
                    0 <= ii < 8 * (k + 1) implies bits@[ii] == self.byte_at(off0 + ii
                    / 8).bits()[ii % 8] by {
                    if ii >= 8 * k {
                        lemma_fundamental_div_mod_converse(ii, 8, k as int, ii - 8 * k);
                    }
                }
            }
            k = k + 1;
        }
        let r = T::from_bits(&bits);
        proof {
            T::lemma_bits_len(&r);
            assert(r.bits() =~= Seq::new(
                T::width(),
                |i: int| self.byte_at(off0 + i / 8).bits()[i % 8],
            ));
        }
        r
    }

    /// Writes a `T`-wide value at `address` as `width(T) / 8` successive
    /// bytes in little-endian order; no other address is touched.
    pub fn write<T: BitCodec>(&mut self, address: usize, value: T)
        requires
            old(self).wf(),
            address >= old(self).base(),
            address - old(self).base() + T::width() / 8 <= usize::MAX - 511,
            address + T::width() / 8 - 1 <= usize::MAX,
        ensures
            final(self).wf(),
            final(self).base() == old(self).base(),
            forall|k: int|
                0 <= k < T::width() / 8 ==> (#[trigger] final(self).byte_at(
                    address - old(self).base() + k,
                )).bits() == value.bits().subrange(8 * k, 8 * k + 8),
            forall|a: int|
                !(address - old(self).base() <= a < address - old(self).base() + T::width() / 8)
                    ==> final(self).byte_at(a) == old(self).byte_at(a),
    {
        proof {
            T::lemma_width_facts();
            T::lemma_bits_len(&value);
            lemma_fundamental_div_mod(T::width() as int, 8);
        }
        let w = T::exec_width();
        let size = w / 8;
        let ghost off0 = address - self.base() as int;
        let mut bits: Vec<bool> = Vec::new();
        let mut i: usize = 0;
        while i < w
            invariant
                i <= w,
                w == T::width(),
                value.bits().len() == w,
                bits@.len() == i,
                forall|ii: int| 0 <= ii < i ==> bits@[ii] == value.bits()[ii],
            decreases w - i,
        {
            bits.push(value.get_bit(i));
            i = i + 1;
        }
        proof {
            assert(bits@ =~= value.bits());
        }
        let mut k: usize = 0;
        while k < size
            invariant
                k <= size,
                size == T::width() / 8,
                w == T::width(),
                8 * size == w,
                self.wf(),
                self.base() == old(self).base(),
                address >= self.base(),
                address - self.base() + size <= usize::MAX - 511,
                address + size - 1 <= usize::MAX,
                off0 == address - self.base(),
                bits@ == value.bits(),
                value.bits().len() == w,
                forall|kk: int|
                    0 <= kk < k ==> (#[trigger] self.byte_at(off0 + kk)).bits()
                        == value.bits().subrange(8 * kk, 8 * kk + 8),
                forall|a: int| !(off0 <= a < off0 + k) ==> self.byte_at(a) == old(self).byte_at(a),
            decreases size - k,
        {
            let b64 = crate::bits::u64_from_bits(&bits, k * 8, 8);
            proof {
                assert((1u64 << 8u64) == 256) by (bit_vector);
            }
            let b = b64 as u8;
            proof {
                assert(b as u64 == b64);
                assert forall|j: int| 0 <= j < 8 implies b.bits()[j] == value.bits()[8 * k
                    + j] by {
                    assert(crate::bits::u64_bit(b64, j as u64) == bits@[k * 8 + j]);
                }
                assert(b.bits() =~= value.bits().subrange(8 * (k as int), 8 * (k as int) + 8));
            }
            self.write_byte(address + k, b);
            k = k + 1;
        }
    }

    /// Reads `number_of_value` consecutive `T`-wide values starting at
    /// `address`, each at a `width(T) / 8`-byte stride.
    pub fn read_vec<T: BitCodec>(&self, address: usize, number_of_value: usize) -> (r: Vec<T>)
        requires
            self.wf(),
            address >= self.base(),
            address + number_of_value * (T::width() / 8) <= usize::MAX,
        ensures
            r@.len() == number_of_value,
            forall|k: int|
                0 <= k < number_of_value ==> (#[trigger] r@[k]).bits() == Seq::new(
                    T::width(),
                    |i: int|
                        self.byte_at(
                            address - self.base() + k * (T::width() / 8) + i / 8,
                        ).bits()[i % 8],
                ),
    {
        proof {
            T::lemma_width_facts();
        }
        let w = T::exec_width();
        let size = w / 8;
        let mut r: Vec<T> = Vec::new();
        let mut i: usize = 0;
        while i < number_of_value
            invariant
                i <= number_of_value,
                w == T::width(),
                size == T::width() / 8,
                size >= 1,
                self.wf(),
                address >= self.base(),
                address + number_of_value * size <= usize::MAX,
                r@.len() == i,
                forall|k: int|
                    0 <= k < i ==> (#[trigger] r@[k]).bits() == Seq::new(
                        T::width(),
                        |ii: int|
                            self.byte_at(
                                address - self.base() + k * size + ii / 8,
                            ).bits()[ii % 8],
                    ),
            decreases number_of_value - i,
        {
            proof {
                assert((i + 1) * size <= number_of_value * size) by (nonlinear_arith)
                    requires
                        i < number_of_value,
                        size >= 1,
                ;
                assert((i + 1) * size == i * size + size) by (nonlinear_arith);
            }
            let v = self.read::<T>(address + i * size);
            r.push(v);
            i = i + 1;
        }
        r
    }

    /// Writes the values at successive `width(T) / 8`-byte strides starting
    /// at `address`; each element commits independently.
    pub fn write_vec<T: BitCodec + Copy>(&mut self, address: usize, values: Vec<T>)
        requires
            old(self).wf(),
            address >= old(self).base(),
            address - old(self).base() + values@.len() * (T::width() / 8) <= usize::MAX - 511,
            address + values@.len() * (T::width() / 8) <= usize::MAX,
        ensures
            final(self).wf(),
            final(self).base() == old(self).base(),
            forall|k: int, m: int|
                #![trigger values@[k].bits().subrange(8 * m, 8 * m + 8)]
                0 <= k < values@.len() && 0 <= m < T::width() / 8 ==> final(self).byte_at(
                    address - old(self).base() + k * (T::width() / 8) + m,
                ).bits() == values@[k].bits().subrange(8 * m, 8 * m + 8),
            forall|a: int|
                !(address - old(self).base() <= a < address - old(self).base() + values@.len() * (
                T::width() / 8)) ==> final(self).byte_at(a) == old(self).byte_at(a),
    {
        proof {
            T::lemma_width_facts();
        }
        let w = T::exec_width();
        let size = w / 8;
        let ghost off0 = address - self.base() as int;
        let n = values.len();
        let mut i: usize = 0;
        while i < n
            invariant
                i <= n,
                n == values@.len(),
                w == T::width(),
                size == T::width() / 8,
                size >= 1,
                self.wf(),
                self.base() == old(self).base(),
                address >= self.base(),
                off0 == address - self.base(),
                address - self.base() + n * size <= usize::MAX - 511,
                address + n * size <= usize::MAX,
                forall|k: int, m: int|
                    #![trigger values@[k].bits().subrange(8 * m, 8 * m + 8)]
                    0 <= k < i && 0 <= m < size ==> self.byte_at(off0 + k * size + m).bits()
                        == values@[k].bits().subrange(8 * m, 8 * m + 8),
                forall|a: int| !(off0 <= a < off0 + i * size) ==> self.byte_at(a) == old(
                    self,
                ).byte_at(a),
            decreases n - i,
        {
            proof {
                assert((i + 1) * size <= n * size) by (nonlinear_arith)
                    requires
                        i < n,
                        size >= 1,
                ;
                assert((i + 1) * size == i * size + size) by (nonlinear_arith);
                assert(i * size >= 0) by (nonlinear_arith)
                    requires
                        i >= 0,
                        size >= 1,
                ;
            }
            let v = values[i];
            let ghost prev = *self;
            self.write::<T>(address + i * size, v);
            proof {
                assert forall|k: int, m: int|
                    #![trigger values@[k].bits().subrange(8 * m, 8 * m + 8)]
                    0 <= k < i + 1 && 0 <= m < size implies self.byte_at(
                    off0 + k * size + m,
                ).bits() == values@[k].bits().subrange(8 * m, 8 * m + 8) by {
                    if k < i {
                        assert(0 <= k * size && k * size + m < i * size) by (nonlinear_arith)
                            requires
                                0 <= k < i,
                                0 <= m < size,
                                size >= 1,
                        ;
                        assert(self.byte_at(off0 + k * size + m) == prev.byte_at(
                            off0 + k * size + m,
                        ));
                    } else {
                        assert(self.byte_at((address + i * size) - prev.base() + m).bits()
                            == v.bits().subrange(8 * m, 8 * m + 8));
                        assert((address + i * size) - prev.base() + m == off0 + k * size + m);
                    }
                }
            }
            i = i + 1;
        }
    }
}

/// Law: typed memory writes round-trip. If the bytes at `off0` hold the
/// little-endian encoding of `x` (as a `write` of `x` leaves them), then the
/// value a `read` assembles from those bytes is exactly `x`.
pub proof fn lemma_memory_round_trip<T: BitCodec>(m: Memory, off0: int, x: T, r: T)
    requires
        forall|k: int|
            0 <= k < T::width() / 8 ==> (#[trigger] m.byte_at(off0 + k)).bits()
                == x.bits().subrange(8 * k, 8 * k + 8),
        r.bits() == Seq::new(T::width(), |i: int| m.byte_at(off0 + i / 8).bits()[i % 8]),
    ensures
        r == x,
{
    T::lemma_width_facts();
    T::lemma_bits_len(&x);
    T::lemma_bits_len(&r);
    lemma_fundamental_div_mod(T::width() as int, 8);
    assert forall|i: int| 0 <= i < T::width() implies r.bits()[i] == x.bits()[i] by {
        let k = i / 8;
        let j = i % 8;
        lemma_fundamental_div_mod(i, 8);
        vstd::arithmetic::div_mod::lemma_multiply_divide_lt(i, (T::width() / 8) as int, 8);
        assert(m.byte_at(off0 + k).bits() == x.bits().subrange(8 * k, 8 * k + 8));
        assert(m.byte_at(off0 + k).bits()[j] == x.bits()[8 * k + j]);
    }
    assert(r.bits() =~= x.bits());
    T::lemma_bits_inj(&r, &x);
}

/// Starts strictly increase along an ordered, well-formed segment list;
/// in fact each later segment starts at or after an earlier one's end.
proof fn lemma_ordered_starts(ss: Seq<MemorySegment>, k1: int, k2: int)
    requires
        segs_all_wf(ss),
        segs_ordered(ss),
        0 <= k1 < k2 < ss.len(),
    ensures
        ss[k1].start_address + ss[k1].data@.len() <= ss[k2].start_address,
    decreases k2 - k1,
{
    if k1 + 1 < k2 {
        lemma_ordered_starts(ss, k1 + 1, k2);
        assert(seg_wf(ss[k1 + 1]));
    }
}

/// Two multiples of the chunk size that differ, differ by a whole chunk.
proof fn lemma_aligned_gap(m1: int, m2: int)
    requires
        m1 % 512 == 0,
        m2 % 512 == 0,
        m1 > m2,
    ensures
        m1 >= m2 + 512,
{
    lemma_fundamental_div_mod(m1, 512);
    lemma_fundamental_div_mod(m2, 512);
    let q1 = m1 / 512;
    let q2 = m2 / 512;
    assert(m1 == 512 * q1 && m2 == 512 * q2);
    assert(q1 > q2);
}

/// A well-formed segment that misses one byte of an aligned chunk misses
/// the whole chunk: chunk-aligned segments cover chunks entirely or not at
/// all.
proof fn lemma_aligned_chunk_free(s: MemorySegment, c: int, r: int, x: int)
    requires
        seg_wf(s),
        c % 512 == 0,
        0 <= c,
        c <= r < c + 512,
        !seg_contains(s, r),
        c <= x < c + 512,
    ensures
        !seg_contains(s, x),
{
    if seg_contains(s, x) {
        let e = s.start_address + s.data@.len();
        vstd::arithmetic::div_mod::lemma_add_mod_noop(
            s.start_address as int,
            s.data@.len() as int,
            512,
        );
        if s.start_address > c {
            lemma_aligned_gap(s.start_address as int, c);
        }
        if e <= c + 511 {
            lemma_aligned_gap(c + 512, e);
        }
        assert(s.start_address <= c && e >= c + 512);
        assert(seg_contains(s, r));
    }
}

/// Inserting a chunk between the segments that start at or before it and
/// those that start above it keeps the list ordered, provided the chunk's
/// range was entirely unmapped.
proof fn lemma_insert_ordered(ss: Seq<MemorySegment>, pos: int, sg: MemorySegment, r: int)
    requires
        segs_all_wf(ss),
        segs_ordered(ss),
        0 <= pos <= ss.len(),
        seg_wf(sg),
        sg.data@.len() == 512,
        sg.start_address <= r < sg.start_address + 512,
        forall|k: int| 0 <= k < pos ==> (#[trigger] ss[k]).start_address <= sg.start_address,
        forall|k: int|
            pos <= k < ss.len() ==> (#[trigger] ss[k]).start_address > sg.start_address,
        forall|k: int| 0 <= k < ss.len() ==> !seg_contains(#[trigger] ss[k], r),
    ensures
        segs_ordered(ss.insert(pos, sg)),
{
    let ss1 = ss.insert(pos, sg);
    assert forall|k: int|
        0 <= k < ss1.len() - 1 implies (#[trigger] ss1[k]).start_address + ss1[k].data@.len()
        <= ss1[k + 1].start_address by {
        if k + 1 < pos {
            assert(ss1[k] == ss[k] && ss1[k + 1] == ss[k + 1]);
        } else if k + 1 == pos {
            let s = ss[k];
            assert(ss1[k] == s);
            assert(seg_wf(s));
            let e = s.start_address + s.data@.len();
            vstd::arithmetic::div_mod::lemma_add_mod_noop(
                s.start_address as int,
                s.data@.len() as int,
                512,
            );
            if e > sg.start_address {
                lemma_aligned_gap(e, sg.start_address as int);
                assert(seg_contains(s, r));
            }
        } else if k == pos {
            let s = ss[k];
            assert(ss1[k + 1] == s);
            assert(seg_wf(s));
            if s.start_address < sg.start_address + 512 {
                lemma_aligned_gap(s.start_address as int, sg.start_address as int);
            }
        } else {
            assert(ss1[k] == ss[k - 1] && ss1[k + 1] == ss[k]);
        }
    }
}

/// Updating one byte inside segment `i` changes the byte served at exactly
/// that address.
proof fn lemma_bytes_in_update(
    ss: Seq<MemorySegment>,
    ss2: Seq<MemorySegment>,
    i: int,
    a0: int,
    v: u8,
    a: int,
)
    requires
        0 <= i < ss.len(),
        ss2.len() == ss.len(),
        seg_contains(ss[i], a0),
        forall|k: int| 0 <= k < i ==> !seg_contains(#[trigger] ss[k], a0),
        forall|k: int| 0 <= k < ss.len() && k != i ==> ss2[k] == ss[k],
        ss2[i].start_address == ss[i].start_address,
        ss2[i].data@ == ss[i].data@.update(a0 - ss[i].start_address, v),
    ensures
        bytes_in(ss2, a) == (if a == a0 {
            v
        } else {
            bytes_in(ss, a)
        }),
    decreases i,
{
    if i == 0 {
        if seg_contains(ss[0], a) {
            assert(seg_contains(ss2[0], a));
        } else {
            assert(!seg_contains(ss2[0], a));
            assert(ss2.subrange(1, ss2.len() as int) =~= ss.subrange(1, ss.len() as int));
            assert(a != a0);
        }
    } else {
        assert(ss2[0] == ss[0]);
        if seg_contains(ss[0], a) {
            assert(a != a0);
        } else {
            let t = ss.subrange(1, ss.len() as int);
            let t2 = ss2.subrange(1, ss2.len() as int);
            assert(forall|k: int| 0 <= k < i - 1 ==> !seg_contains(#[trigger] t[k], a0));
            assert(forall|k: int| 0 <= k < t.len() && k != i - 1 ==> t2[k] == t[k]);
            lemma_bytes_in_update(t, t2, i - 1, a0, v, a);
        }
    }
}

/// Inserting a segment serves its own bytes at the addresses it covers
/// (provided no earlier segment covers them) and leaves every other address
/// served as before.
proof fn lemma_bytes_in_insert(ss: Seq<MemorySegment>, pos: int, sg: MemorySegment, a: int)
    requires
        0 <= pos <= ss.len(),
        seg_contains(sg, a) ==> forall|k: int|
            0 <= k < pos ==> !seg_contains(#[trigger] ss[k], a),
    ensures
        bytes_in(ss.insert(pos, sg), a) == (if seg_contains(sg, a) {
            sg.data@[a - sg.start_address]
        } else {
            bytes_in(ss, a)
        }),
    decreases pos,
{
    let ss1 = ss.insert(pos, sg);
    if pos == 0 {
        assert(ss1[0] == sg);
        if !seg_contains(sg, a) {
            assert(ss1.subrange(1, ss1.len() as int) =~= ss);
        }
    } else {
        assert(ss1[0] == ss[0]);
        if seg_contains(ss[0], a) {
            assert(!seg_contains(sg, a));
        } else {
            let t = ss.subrange(1, ss.len() as int);
            assert(ss1.subrange(1, ss1.len() as int) =~= t.insert(pos - 1, sg));
            assert(seg_contains(sg, a) ==> forall|k: int|
                0 <= k < pos - 1 ==> !seg_contains(#[trigger] t[k], a));
            lemma_bytes_in_insert(t, pos - 1, sg, a);
        }
    }
}

/// Merging two byte-adjacent segments leaves the byte served at every
/// address unchanged. `ss1` is `ss` with segments `i` and `i + 1` replaced
/// by one segment spanning both, the data concatenated.
proof fn lemma_bytes_in_merge(ss: Seq<MemorySegment>, ss1: Seq<MemorySegment>, i: int, a: int)
    requires
        0 <= i,
        i + 1 < ss.len(),
        ss[i].start_address + ss[i].data@.len() == ss[i + 1].start_address,
        ss1.len() == ss.len() - 1,
        forall|k: int| 0 <= k < i ==> ss1[k] == ss[k],
        ss1[i].start_address == ss[i].start_address,
        ss1[i].data@ == ss[i].data@ + ss[i + 1].data@,
        forall|k: int| i < k < ss1.len() ==> ss1[k] == ss[k + 1],
    ensures
        bytes_in(ss1, a) == bytes_in(ss, a),
    decreases i,
{
    if i == 0 {
        let m = ss1[0];
        let s0 = ss[0];
        let s1 = ss[1];
        assert(m.data@.len() == s0.data@.len() + s1.data@.len());
        let tail = ss.subrange(1, ss.len() as int);
        if seg_contains(s0, a) {
            assert(seg_contains(m, a));
            assert(m.data@[a - m.start_address] == s0.data@[a - s0.start_address]);
            assert(bytes_in(ss1, a) == m.data@[a - m.start_address]);
            assert(bytes_in(ss, a) == s0.data@[a - s0.start_address]);
        } else if seg_contains(s1, a) {
            assert(seg_contains(m, a));
            assert(m.data@[a - m.start_address] == s1.data@[a - s1.start_address]);
            assert(tail[0] == s1);
            assert(bytes_in(ss, a) == bytes_in(tail, a));
            assert(bytes_in(tail, a) == s1.data@[a - s1.start_address]);
            assert(bytes_in(ss1, a) == m.data@[a - m.start_address]);
        } else {
            assert(!seg_contains(m, a));
            assert(ss1.subrange(1, ss1.len() as int) =~= ss.subrange(2, ss.len() as int));
            assert(tail.subrange(1, tail.len() as int) =~= ss.subrange(2, ss.len() as int));
            assert(bytes_in(ss, a) == bytes_in(tail, a));
            assert(tail[0] == s1);
            assert(bytes_in(tail, a) == bytes_in(ss.subrange(2, ss.len() as int), a));
            assert(bytes_in(ss1, a) == bytes_in(ss.subrange(2, ss.len() as int), a));
        }
    } else {
        assert(ss1[0] == ss[0]);
        if !seg_contains(ss[0], a) {
            let t = ss.subrange(1, ss.len() as int);
            let t1 = ss1.subrange(1, ss1.len() as int);
            assert(forall|k: int| 0 <= k < i - 1 ==> t1[k] == t[k]);
            assert(forall|k: int| i - 1 < k < t1.len() ==> t1[k] == t[k + 1]);
            lemma_bytes_in_merge(t, t1, i - 1, a);
        }
    }
}

/// When no segment covers `a`, the served byte is zero.
proof fn lemma_bytes_in_no_match(ss: Seq<MemorySegment>, a: int)
    requires
        forall|k: int| 0 <= k < ss.len() ==> !seg_contains(ss[k], a),
    ensures
        bytes_in(ss, a) == 0,
    decreases ss.len(),
{
    if ss.len() > 0 {
        let tail = ss.subrange(1, ss.len() as int);
        assert(forall|k: int| 0 <= k < tail.len() ==> !seg_contains(#[trigger] tail[k], a));
        lemma_bytes_in_no_match(tail, a);
    }
}

} // verus!
