use emu_state::registers::{FLAGSName, GPRName, IPName, Registers, VecRegName};
use emu_state::wide::{U256, U512};

#[test]
fn window_bit_aliasing_basic() {
    let mut r = Registers::new();
    r.set_bit(VecRegName::XMM, 0, 127, true);
    assert_eq!(r.get_bit(VecRegName::XMM, 0, 127), Some(true));
    assert_eq!(r.get_bit(VecRegName::YMM, 0, 127), Some(true));
    assert_eq!(r.get_bit(VecRegName::ZMM, 0, 127), Some(true));
    r.set_bit(VecRegName::YMM, 0, 255, true);
    assert_eq!(r.get_bit(VecRegName::YMM, 0, 255), Some(true));
    r.set_bit(VecRegName::ZMM, 0, 511, true);
    assert_eq!(r.get_bit(VecRegName::ZMM, 0, 511), Some(true));
}

#[test]
fn window_bit_aliasing_out_of_width() {
    let mut r = Registers::new();
    r.set_bit(VecRegName::ZMM, 3, 0, true);
    assert_eq!(r.get_bit(VecRegName::XMM, 3, 0), Some(true));
    r.set_bit(VecRegName::ZMM, 3, 200, true);
    assert_eq!(r.get_bit(VecRegName::XMM, 3, 200), None);
    assert_eq!(r.get_bit(VecRegName::YMM, 3, 200), Some(true));
}

#[test]
fn set_bit_out_of_window_is_noop() {
    let mut r = Registers::new();
    r.set_bit(VecRegName::XMM, 1, 130, true);
    assert_eq!(r.get_bit(VecRegName::ZMM, 1, 130), Some(false));
}

#[test]
fn clear_zeroes_whole_cell() {
    let mut r = Registers::new();
    r.set_bit(VecRegName::ZMM, 2, 5, true);
    r.set_bit(VecRegName::ZMM, 2, 500, true);
    r.clear(2);
    assert_eq!(r.get_bit(VecRegName::ZMM, 2, 5), Some(false));
    assert_eq!(r.get_bit(VecRegName::ZMM, 2, 500), Some(false));
}

#[test]
fn sections_round_trip_u32_xmm() {
    let mut r = Registers::new();
    let xs = vec![0x8000_0000u32, 0x8000_0000u32, 0x8000_0000u32, 0x8000_0000u32];
    assert!(r.set_by_sections(VecRegName::XMM, 2, xs.clone()));
    let back: Vec<u32> = r.get_by_sections(VecRegName::XMM, 2).unwrap();
    assert_eq!(back, xs);
}

#[test]
fn sections_round_trip_u64_zmm() {
    let mut r = Registers::new();
    let xs = vec![1u64, 2, 3, 4, 5, 6, 7, 0xFFFF_FFFF_FFFF_FFFF];
    assert!(r.set_by_sections(VecRegName::ZMM, 9, xs.clone()));
    let back: Vec<u64> = r.get_by_sections(VecRegName::ZMM, 9).unwrap();
    assert_eq!(back, xs);
}

#[test]
fn sections_round_trip_wide_types() {
    let mut r = Registers::new();
    let xs = vec![U256::from_u64(1), U256::from_u64(2)];
    assert!(r.set_by_sections(VecRegName::ZMM, 3, xs.clone()));
    let back: Vec<U256> = r.get_by_sections(VecRegName::ZMM, 3).unwrap();
    assert_eq!(back, xs);

    let ys = vec![U512::from_u64(1)];
    assert!(r.set_by_sections(VecRegName::ZMM, 5, ys.clone()));
    let back2: Vec<U512> = r.get_by_sections(VecRegName::ZMM, 5).unwrap();
    assert_eq!(back2, ys);
}

#[test]
fn set_by_sections_rejects_wrong_total_width() {
    let mut r = Registers::new();
    r.set_bit(VecRegName::ZMM, 4, 17, true);
    // three u32 sections are 96 bits: no window is 96 bits wide
    assert!(!r.set_by_sections(VecRegName::XMM, 4, vec![1u32, 2, 3]));
    assert!(!r.set_by_sections(VecRegName::YMM, 4, vec![1u64, 2, 3]));
    assert!(!r.set_by_sections(VecRegName::ZMM, 4, vec![7u64]));
    // the rejected writes left the register bit-for-bit unchanged
    assert_eq!(r.get_bit(VecRegName::ZMM, 4, 17), Some(true));
    assert_eq!(r.get_bit(VecRegName::ZMM, 4, 16), Some(false));
}

#[test]
fn window_write_zero_fills_high_bits() {
    let mut r = Registers::new();
    r.set_bit(VecRegName::ZMM, 6, 300, true);
    assert!(r.set_by_sections(VecRegName::XMM, 6, vec![0xFFFF_FFFFu32; 4]));
    // the write went through a 128-bit window: everything above reads 0
    assert_eq!(r.get_bit(VecRegName::ZMM, 6, 300), Some(false));
    assert_eq!(r.get_bit(VecRegName::ZMM, 6, 127), Some(true));
    assert_eq!(r.get_bit(VecRegName::ZMM, 6, 128), Some(false));
}

#[test]
fn get_by_sections_truncates_to_window() {
    let mut r = Registers::new();
    assert!(r.set_by_sections(VecRegName::ZMM, 7, vec![0xAAu8; 64]));
    let xmm: Vec<u8> = r.get_by_sections(VecRegName::XMM, 7).unwrap();
    assert_eq!(xmm.len(), 16);
    let ymm: Vec<u8> = r.get_by_sections(VecRegName::YMM, 7).unwrap();
    assert_eq!(ymm.len(), 32);
    let zmm: Vec<u8> = r.get_by_sections(VecRegName::ZMM, 7).unwrap();
    assert_eq!(zmm.len(), 64);
    assert!(zmm.iter().all(|&b| b == 0xAA));
}

#[test]
fn selector_reads_and_writes_raw_cell() {
    let mut r = Registers::new();
    assert!(r.set_by_sections(VecRegName::XMM, 15, vec![
        0x1234_5678u32,
        0x1234_5678u32,
        0x1234_5678u32,
        0x1234_5678u32,
    ]));
    let low: u32 = r.get_by_selector(VecRegName::XMM, 15, "[31:0]").unwrap();
    assert_eq!(low, 0x1234_5678);
    assert!(r.set_by_selector(VecRegName::XMM, 15, "[31:0]", 0u32));
    let back: Vec<u32> = r.get_by_sections(VecRegName::XMM, 15).unwrap();
    assert_eq!(back, vec![0, 0x1234_5678, 0x1234_5678, 0x1234_5678]);
    // MAX addresses the top physical bit even when a narrow window is named
    assert!(r.set_by_selector(VecRegName::XMM, 15, "[MAX:64]", 0u32));
    let zmm: Vec<u32> = r.get_by_sections(VecRegName::ZMM, 15).unwrap();
    assert_eq!(zmm[0], 0);
    assert_eq!(zmm[1], 0x1234_5678);
    assert!(zmm[2..].iter().all(|&x| x == 0));
}

#[test]
fn selector_clears_range_beyond_value_width() {
    let mut r = Registers::new();
    assert!(r.set_by_sections(VecRegName::ZMM, 8, vec![0xFFFF_FFFF_FFFF_FFFFu64; 8]));
    // a 8-bit value into a 16-bit range: the upper byte of the range clears
    assert!(r.set_by_selector(VecRegName::ZMM, 8, "[15:0]", 0x5Au8));
    let low: u16 = r.get_by_selector(VecRegName::ZMM, 8, "[15:0]").unwrap();
    assert_eq!(low, 0x005A);
    let next: u16 = r.get_by_selector(VecRegName::ZMM, 8, "[31:16]").unwrap();
    assert_eq!(next, 0xFFFF);
}

#[test]
fn selector_parse_failure_returns_none_or_false() {
    let mut r = Registers::new();
    let bad: Option<u32> = r.get_by_selector(VecRegName::ZMM, 0, "31:0");
    assert!(bad.is_none());
    assert!(!r.set_by_selector(VecRegName::ZMM, 0, "[31-0]", 1u32));
    assert!(!r.set_by_selector(VecRegName::ZMM, 0, "", 1u32));
}

#[test]
fn gpr_low32_write_zero_extends() {
    let mut r = Registers::new();
    r.set_gpr_value(GPRName::RAX, 0xFFFF_FFFF_FFFF_FFFF);
    r.set_gpr_value(GPRName::EAX, 65535);
    assert_eq!(r.get_gpr_value(GPRName::RAX), 65535);
}

#[test]
fn gpr_low8_write_merges() {
    let mut r = Registers::new();
    r.set_gpr_value(GPRName::RAX, 0xFFFF_FFFF_FFFF_FFFF);
    r.set_gpr_value(GPRName::AL, 0xFF);
    assert_eq!(r.get_gpr_value(GPRName::RAX), 0xFFFF_FFFF_FFFF_FFFF);
    r.set_gpr_value(GPRName::AL, 0x00);
    assert_eq!(r.get_gpr_value(GPRName::RAX), 0xFFFF_FFFF_FFFF_FF00);
}

#[test]
fn gpr_ax_and_ah_views() {
    let mut r = Registers::new();
    r.set_gpr_value(GPRName::RAX, 0x1122_3344_5566_7788);
    r.set_gpr_value(GPRName::AX, 0xABCD);
    assert_eq!(r.get_gpr_value(GPRName::RAX), 0x1122_3344_5566_ABCD);
    assert_eq!(r.get_gpr_value(GPRName::AX), 0xABCD);
    r.set_gpr_value(GPRName::AH, 0x42);
    assert_eq!(r.get_gpr_value(GPRName::RAX), 0x1122_3344_5566_42CD);
    assert_eq!(r.get_gpr_value(GPRName::AH), 0x42);
    assert_eq!(r.get_gpr_value(GPRName::AL), 0xCD);
}

#[test]
fn gpr_out_of_table_names_use_full_width() {
    let mut r = Registers::new();
    r.set_gpr_value(GPRName::EBX, 0x1_0000_0001);
    // EBX is outside the bespoke-mask table: it writes RBX's full 64 bits
    assert_eq!(r.get_gpr_value(GPRName::RBX), 0x1_0000_0001);
    r.set_gpr_value(GPRName::R15, 99);
    assert_eq!(r.get_gpr_value(GPRName::R15), 99);
    assert_eq!(r.get_gpr_value(GPRName::RBX), 0x1_0000_0001);
}

#[test]
fn flags_views_mask_and_merge() {
    let mut r = Registers::new();
    r.set_flags_value(FLAGSName::RFLAGS, 0xFFFF_FFFF_FFFF_FFFF);
    r.set_flags_value(FLAGSName::EFLAGS, 0);
    assert_eq!(r.get_flags_value(FLAGSName::RFLAGS), 0xFFFF_FFFF_0000_0000);
    r.set_flags_value(FLAGSName::FLAGS, 0x2);
    assert_eq!(r.get_flags_value(FLAGSName::RFLAGS), 0xFFFF_FFFF_0000_0002);
    assert_eq!(r.get_flags_value(FLAGSName::FLAGS), 0x2);
    assert_eq!(r.get_flags_value(FLAGSName::EFLAGS), 0x2);
}

#[test]
fn ip_views_mask_and_merge() {
    let mut r = Registers::new();
    r.set_ip_value(IPName::RIP, 0xFFFF_FFFF_FFFF_FFFF);
    r.set_ip_value(IPName::EIP, 0x1234_5678);
    assert_eq!(r.get_ip_value(IPName::RIP), 0xFFFF_FFFF_1234_5678);
    r.set_ip_value(IPName::IP, 0x9ABC);
    assert_eq!(r.get_ip_value(IPName::RIP), 0xFFFF_FFFF_1234_9ABC);
    assert_eq!(r.get_ip_value(IPName::IP), 0x9ABC);
    assert_eq!(r.get_ip_value(IPName::EIP), 0x1234_9ABC);
}
