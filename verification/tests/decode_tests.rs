use ftrace::decode::{
    bitmask, bits, decode, get_imm, matches_jal, matches_jalr, sign_extend_to_u64, target_pc_gen,
    ImmType, Jump, JumpKind,
};

fn regs_with(entries: &[(usize, u64)]) -> [u64; 32] {
    let mut regs = [0u64; 32];
    for (i, v) in entries {
        regs[*i] = *v;
    }
    regs
}

fn jal(rd: u32, offset: i64) -> u32 {
    let imm = offset as u64;
    let bit20 = ((imm >> 20) & 1) as u32;
    let bits10_1 = ((imm >> 1) & 0x3ff) as u32;
    let bit11 = ((imm >> 11) & 1) as u32;
    let bits19_12 = ((imm >> 12) & 0xff) as u32;
    bit20 << 31 | bits10_1 << 21 | bit11 << 20 | bits19_12 << 12 | rd << 7 | 0x6f
}

fn jalr(rd: u32, rs1: u32, offset: i64) -> u32 {
    (((offset as u64) & 0xfff) as u32) << 20 | rs1 << 15 | rd << 7 | 0x67
}

#[test]
fn ftrace_test_check_instruction() {
    // c81ff0ef jal
    assert!(matches_jal(0xc81ff0ef));
    assert!(!matches_jalr(0xc81ff0ef));
    // 000780e7 jalr
    assert!(matches_jalr(0x000780e7));
    assert!(!matches_jal(0x000780e7));
}

#[test]
fn mod_test_check_instruction() {
    let regs = [0u64; 32];
    // c81ff0ef jal
    assert!(decode(0, 0xc81ff0ef, &regs).is_some());
    // 000780e7 jalr
    assert!(decode(0, 0x000780e7, &regs).is_some());
    // 00000013 nop
    assert!(decode(0, 0x00000013, &regs).is_none());
}

#[test]
fn jal_with_negative_offset_is_a_call() {
    let regs = [0u64; 32];
    let jump = decode(0x2000, 0xc81ff0ef, &regs);
    assert_eq!(jump, Some(Jump { target: 0x1c80, kind: JumpKind::Call }));
    assert_eq!(target_pc_gen(0x2000, 0xc81ff0ef, &regs), 0x1c80);
    assert_eq!(get_imm(0xc81ff0ef, ImmType::J), (-0x380i64) as u64);
}

#[test]
fn jalr_through_another_register_is_a_call() {
    let regs = regs_with(&[(15, 0x3000)]);
    let jump = decode(0x2000, 0x000780e7, &regs);
    assert_eq!(jump, Some(Jump { target: 0x3000, kind: JumpKind::Call }));
}

#[test]
fn jalr_through_ra_without_link_is_a_return() {
    let regs = regs_with(&[(1, 0x1234_5678)]);
    // 00008067 ret
    assert_eq!(
        decode(0x4000, 0x00008067, &regs),
        Some(Jump { target: 0x1234_5678, kind: JumpKind::Return })
    );
    // jalr x1, 0(x1) links, so it calls
    assert_eq!(
        decode(0x4000, jalr(1, 1, 0), &regs),
        Some(Jump { target: 0x1234_5678, kind: JumpKind::Call })
    );
    // jalr x0, 0(x5) does not go through ra, so it calls
    assert_eq!(decode(0x4000, jalr(0, 5, 0), &regs), Some(Jump { target: 0, kind: JumpKind::Call }));
}

#[test]
fn jalr_clears_bit_zero_of_the_target() {
    let regs = regs_with(&[(6, 0x1001)]);
    assert_eq!(target_pc_gen(0, jalr(1, 6, 0), &regs), 0x1000);
    assert_eq!(target_pc_gen(0, jalr(1, 6, 2), &regs), 0x1002);
    assert_eq!(target_pc_gen(0, jalr(1, 6, -1), &regs), 0x1000);
    assert_eq!(target_pc_gen(0, jalr(1, 6, -2048), &regs), 0x800);
    assert_eq!(target_pc_gen(0, jalr(1, 6, 2047), &regs), 0x1800);
}

#[test]
fn targets_wrap_round_the_address_space() {
    let regs = regs_with(&[(7, u64::MAX)]);
    assert_eq!(target_pc_gen(0, jalr(1, 7, 3), &regs), 2);
    assert_eq!(target_pc_gen(0x10, jal(1, -0x20), &regs), 0xffff_ffff_ffff_fff0);
    assert_eq!(target_pc_gen(u64::MAX - 1, jal(1, 4), &regs), 2);
}

#[test]
fn other_words_are_ignored() {
    let regs = [0u64; 32];
    for inst in [0u32, 0x13, 0x00a50533, 0xffff_ffff, 0x0000_1067, 0x0000_7067, 0x63, 0x6e] {
        assert_eq!(decode(0x1000, inst, &regs), None);
        assert!(!matches_jal(inst) && !matches_jalr(inst));
    }
}

#[test]
fn a_jal_returns_when_the_rs1_and_rd_positions_say_so() {
    let regs = [0u64; 32];
    // jal x0 with offset bits 19..15 equal to 1: the bits at the rs1 position read 1
    let inst = jal(0, 0x8000);
    assert_eq!((inst >> 15) & 0x1f, 1);
    assert_eq!(
        decode(0x100, inst, &regs),
        Some(Jump { target: 0x8100, kind: JumpKind::Return })
    );
    assert_eq!(
        decode(0x100, jal(1, 0x8000), &regs),
        Some(Jump { target: 0x8100, kind: JumpKind::Call })
    );
}

#[test]
fn decoding_an_encoded_jal_gives_back_the_offset() {
    for offset in [0i64, 2, -2, 0x7fe, 0x800, -0x800, 0xf_fffe, -0x10_0000, 0x1234, -0x380] {
        for rd in [0u32, 1, 5, 31] {
            let inst = jal(rd, offset);
            assert!(matches_jal(inst));
            assert_eq!(get_imm(inst, ImmType::J), offset as u64);
            assert_eq!(bits(inst as u64, 11, 7), rd as u64);
            let pc = 0x8000_0000u64;
            let target = target_pc_gen(pc, inst, &[0u64; 32]);
            assert_eq!(target, pc.wrapping_add(offset as u64));
            assert_eq!(jal(rd, target.wrapping_sub(pc) as i64), inst);
        }
    }
}

#[test]
fn decoding_an_encoded_jalr_gives_back_the_offset() {
    for offset in [0i64, 1, -1, 4, -4, 2047, -2048, 0x7fe] {
        for (rd, rs1) in [(0u32, 1u32), (1, 1), (1, 15), (31, 31), (0, 0)] {
            let inst = jalr(rd, rs1, offset);
            assert!(matches_jalr(inst));
            assert_eq!(get_imm(inst, ImmType::I), offset as u64);
            let regs = regs_with(&[(rs1 as usize, 0x4000)]);
            let target = target_pc_gen(0, inst, &regs);
            assert_eq!(target, 0x4000u64.wrapping_add(offset as u64) & !1);
            if offset % 2 == 0 {
                assert_eq!(jalr(rd, rs1, target.wrapping_sub(0x4000) as i64), inst);
            }
        }
    }
}

#[test]
fn bit_fields() {
    assert_eq!(bitmask(0), 0);
    assert_eq!(bitmask(1), 1);
    assert_eq!(bitmask(12), 0xfff);
    assert_eq!(bitmask(63), 0x7fff_ffff_ffff_ffff);
    assert_eq!(bits(0xdead_beef, 31, 16), 0xdead);
    assert_eq!(bits(0xdead_beef, 15, 0), 0xbeef);
    assert_eq!(bits(0xdead_beef, 7, 4), 0xe);
    assert_eq!(bits(0x8000_0000_0000_0000, 63, 63), 1);
    assert_eq!(bits(u64::MAX, 63, 1), 0x7fff_ffff_ffff_ffff);
    assert_eq!(bits(0b1010, 3, 3), 1);
    assert_eq!(bits(0b1010, 2, 2), 0);
}

#[test]
fn sign_extension() {
    assert_eq!(sign_extend_to_u64(0xfff, 12), u64::MAX);
    assert_eq!(sign_extend_to_u64(0x800, 12), 0xffff_ffff_ffff_f800);
    assert_eq!(sign_extend_to_u64(0x7ff, 12), 0x7ff);
    assert_eq!(sign_extend_to_u64(1, 1), u64::MAX);
    assert_eq!(sign_extend_to_u64(0, 1), 0);
    assert_eq!(sign_extend_to_u64(0x1234, 64), 0x1234);
    assert_eq!(sign_extend_to_u64(0x8000_0000_0000_0000, 64), 0x8000_0000_0000_0000);
    assert_eq!(sign_extend_to_u64(0x4000_0000_0000_0000, 63), 0xc000_0000_0000_0000);
    // bits above the sign bit stay where the sign bit is clear
    assert_eq!(sign_extend_to_u64(0x1_0001, 16), 0x1_0001);
}

#[test]
fn immediates() {
    // the I immediate is bits 31..20, sign-extended
    assert_eq!(get_imm(0x7ff0_0000, ImmType::I), 0x7ff);
    assert_eq!(get_imm(0x8000_0000, ImmType::I), 0xffff_ffff_ffff_f800);
    assert_eq!(get_imm(0x000f_ffff, ImmType::I), 0);
    // the J immediate: bit 31 is the sign, 19..12 stay, 20 goes to 11, 30..21 go to 10..1
    assert_eq!(get_imm(0x8000_0000, ImmType::J), 0xffff_ffff_fff0_0000);
    assert_eq!(get_imm(0x000f_f000, ImmType::J), 0xf_f000);
    assert_eq!(get_imm(0x0010_0000, ImmType::J), 0x800);
    assert_eq!(get_imm(0x7fe0_0000, ImmType::J), 0x7fe);
    assert_eq!(get_imm(0x0000_0fff, ImmType::J), 0);
}
