use emu_state::memory::Memory;
use emu_state::wide::{U256, U512};

const BASE: usize = 0x4000_0000;

#[test]
fn unmapped_reads_zero() {
    let m = Memory::new(BASE);
    assert_eq!(m.read_byte(BASE), 0);
    assert_eq!(m.read_byte(BASE + 123_456), 0);
    assert_eq!(m.segment_count(), 0);
}

#[test]
fn byte_write_read_back() {
    let mut m = Memory::new(BASE);
    m.write_byte(BASE + 7, 0x5A);
    assert_eq!(m.read_byte(BASE + 7), 0x5A);
    assert_eq!(m.read_byte(BASE + 6), 0);
    assert_eq!(m.read_byte(BASE + 8), 0);
}

#[test]
fn adjacent_chunks_coalesce_at_once() {
    // storage comes in 512-byte aligned chunks, so the chunks backing
    // base+0 and base+512 touch and merge as soon as both exist
    let mut m = Memory::new(BASE);
    m.write_byte(BASE, 1);
    assert_eq!(m.segment_count(), 1);
    assert_eq!(m.segment_range(0), (0, 512));
    m.write_byte(BASE + 512, 2);
    assert_eq!(m.segment_count(), 1);
    let (start, len) = m.segment_range(0);
    assert_eq!(start, 0);
    assert_eq!(len, 1024);
    m.write_byte(BASE + 511, 3);
    assert_eq!(m.segment_count(), 1);
    assert_eq!(m.segment_range(0), (0, 1024));
    assert_eq!(m.read_byte(BASE), 1);
    assert_eq!(m.read_byte(BASE + 511), 3);
    assert_eq!(m.read_byte(BASE + 512), 2);
    // unwritten bytes anywhere in the merged span still read as zero
    assert_eq!(m.read_byte(BASE + 1), 0);
    assert_eq!(m.read_byte(BASE + 510), 0);
    assert_eq!(m.read_byte(BASE + 513), 0);
    assert_eq!(m.read_byte(BASE + 1023), 0);
}

#[test]
fn filling_a_gap_merges_both_neighbours() {
    let mut m = Memory::new(BASE);
    m.write_byte(BASE, 1);
    m.write_byte(BASE + 1024, 2);
    assert_eq!(m.segment_count(), 2);
    assert_eq!(m.segment_range(0), (0, 512));
    assert_eq!(m.segment_range(1), (1024, 512));
    // a write into the hole allocates the middle chunk, adjacent to both
    // neighbours, and one pass merges all three into a single segment
    m.write_byte(BASE + 600, 3);
    assert_eq!(m.segment_count(), 1);
    assert_eq!(m.segment_range(0), (0, 1536));
    assert_eq!(m.read_byte(BASE), 1);
    assert_eq!(m.read_byte(BASE + 600), 3);
    assert_eq!(m.read_byte(BASE + 1024), 2);
    assert_eq!(m.read_byte(BASE + 599), 0);
    assert_eq!(m.read_byte(BASE + 1535), 0);
}

#[test]
fn distant_chunks_stay_separate() {
    let mut m = Memory::new(0);
    m.write_byte(0, 1);
    m.write_byte(4096, 2);
    assert_eq!(m.segment_count(), 2);
    assert_eq!(m.segment_range(0), (0, 512));
    assert_eq!(m.segment_range(1), (4096, 512));
}

#[test]
fn native_width_round_trips() {
    let mut m = Memory::new(BASE);
    m.write::<u8>(BASE, 0x12);
    assert_eq!(m.read::<u8>(BASE), 0x12);
    m.write::<u16>(BASE, 0x1234);
    assert_eq!(m.read::<u16>(BASE), 0x1234);
    m.write::<u32>(BASE, 0x1234_5678);
    assert_eq!(m.read::<u32>(BASE), 0x1234_5678);
    m.write::<u64>(BASE, 0x1234_5678_8765_4321);
    assert_eq!(m.read::<u64>(BASE), 0x1234_5678_8765_4321);
    m.write::<u128>(BASE, 0x1234_5678_8765_4321_1234_5678_8765_4321);
    assert_eq!(m.read::<u128>(BASE), 0x1234_5678_8765_4321_1234_5678_8765_4321);
}

#[test]
fn little_endian_byte_layout() {
    let mut m = Memory::new(BASE);
    m.write::<u32>(BASE + 64, 0x1234_5678);
    assert_eq!(m.read_byte(BASE + 64), 0x78);
    assert_eq!(m.read_byte(BASE + 65), 0x56);
    assert_eq!(m.read_byte(BASE + 66), 0x34);
    assert_eq!(m.read_byte(BASE + 67), 0x12);
}

#[test]
fn wide_round_trip_u256() {
    let mut m = Memory::new(BASE);
    let x = U256::from_limbs(
        0x1234_5678_8765_4321,
        0xDEAD_BEEF_0BAD_F00D,
        0x0123_4567_89AB_CDEF,
        0xFEDC_BA98_7654_3210,
    );
    m.write::<U256>(BASE, x);
    assert_eq!(m.read::<U256>(BASE), x);
    // little-endian layout, checked byte by byte at both ends
    assert_eq!(m.read_byte(BASE), 0x21);
    assert_eq!(m.read_byte(BASE + 1), 0x43);
    assert_eq!(m.read_byte(BASE + 7), 0x12);
    assert_eq!(m.read_byte(BASE + 8), 0x0D);
    assert_eq!(m.read_byte(BASE + 31), 0xFE);
}

#[test]
fn wide_round_trip_u512() {
    let mut m = Memory::new(BASE);
    let x = U512::from_u128(0x1234_5678_8765_4321_1234_5678_8765_4321);
    m.write::<U512>(BASE + 1024, x);
    assert_eq!(m.read::<U512>(BASE + 1024), x);
    assert_eq!(m.read_byte(BASE + 1024), 0x21);
    assert_eq!(m.read_byte(BASE + 1024 + 15), 0x12);
    assert_eq!(m.read_byte(BASE + 1024 + 16), 0);
    assert_eq!(m.read_byte(BASE + 1024 + 63), 0);
}

#[test]
fn vector_writes_and_strided_reads() {
    let mut m = Memory::new(BASE);
    m.write_vec::<u64>(BASE, vec![0, 1, 2, 3, 4, 5, 6, 7]);
    let words: Vec<u32> = m.read_vec::<u32>(BASE, 16);
    assert_eq!(
        words,
        vec![0, 0, 1, 0, 2, 0, 3, 0, 4, 0, 5, 0, 6, 0, 7, 0]
    );
    let back: Vec<u64> = m.read_vec::<u64>(BASE, 8);
    assert_eq!(back, vec![0, 1, 2, 3, 4, 5, 6, 7]);
}

#[test]
fn overwrite_within_existing_segment() {
    let mut m = Memory::new(0);
    m.write::<u64>(8, 0xFFFF_FFFF_FFFF_FFFF);
    m.write::<u16>(8, 0x0102);
    assert_eq!(m.read::<u64>(8), 0xFFFF_FFFF_FFFF_0102);
    assert_eq!(m.segment_count(), 1);
}
