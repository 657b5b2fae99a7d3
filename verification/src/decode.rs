//! Decoding of the two RISC-V jump instructions, `jal` and `jalr`.

use vstd::prelude::*;

verus! {

/// The two immediate layouts that the jump instructions use.
#[derive(Clone, Copy, Debug, PartialEq, Eq, Structural)]
pub enum ImmType {
    I,
    J,
}

/// How a recognised jump is to be treated by the tracer.
#[derive(Clone, Copy, Debug, PartialEq, Eq, Structural)]
pub enum JumpKind {
    Call,
    Return,
}

/// A recognised jump: where it lands and whether it calls or returns.
#[derive(Clone, Copy, Debug, PartialEq, Eq, Structural)]
pub struct Jump {
    pub target: u64,
    pub kind: JumpKind,
}

/// The number with the lowest `bits` bits set.
pub open spec fn low_mask(bits: u8) -> u64
    recommends
        bits < 64,
{
    ((1u64 << bits) - 1) as u64
}

/// Bits `a` down to `b` of `value`, moved down to bit 0.
pub open spec fn bit_field(value: u64, a: u8, b: u8) -> u64
    recommends
        b <= a <= 63,
        a - b < 63,
{
    (value >> b) & low_mask((a - b + 1) as u8)
}

/// `value`, read as a two's complement number of `bit_width` bits, widened to
/// 64 bits. Bits above the sign bit are left alone when the sign bit is clear.
pub open spec fn sign_extended(value: u64, bit_width: u8) -> u64
    recommends
        1 <= bit_width <= 64,
{
    if bit_width == 64 {
        value
    } else if value & (1u64 << ((bit_width - 1) as u8)) == 0 {
        value
    } else {
        value | !low_mask(bit_width)
    }
}

/// The I-type immediate of `inst`: bits 31..20, sign-extended from 12 bits.
pub open spec fn imm_i(inst: u32) -> u64 {
    sign_extended(bit_field(inst as u64, 31, 20), 12)
}

/// The J-type immediate of `inst`: the sign from bit 31 fills bit 20 and all
/// above it, bits 19..12 keep their place, bit 20 moves to bit 11, bits
/// 30..25 to bits 10..5 and bits 24..21 to bits 4..1. Bit 0 is zero.
pub open spec fn imm_j(inst: u32) -> u64 {
    let i = inst as u64;
    sign_extended(bit_field(i, 31, 31), 1) << 20 | bit_field(i, 19, 12) << 12 | bit_field(
        i,
        20,
        20,
    ) << 11 | bit_field(i, 30, 25) << 5 | bit_field(i, 24, 21) << 1
}

/// The immediate of `inst` in the given layout.
pub open spec fn imm_of(inst: u32, imm_type: ImmType) -> u64 {
    match imm_type {
        ImmType::I => imm_i(inst),
        ImmType::J => imm_j(inst),
    }
}

/// `inst` is a `jal`: its opcode is `1101111`.
pub open spec fn is_jal(inst: u32) -> bool {
    inst & 0x7f == 0x6f
}

/// `inst` is a `jalr`: its opcode is `1100111` and its funct3 is `000`.
pub open spec fn is_jalr(inst: u32) -> bool {
    inst & 0x707f == 0x67
}

/// The destination register field, bits 11..7.
pub open spec fn rd_of(inst: u32) -> u64 {
    bit_field(inst as u64, 11, 7)
}

/// The first source register field, bits 19..15.
pub open spec fn rs1_of(inst: u32) -> u64 {
    bit_field(inst as u64, 19, 15)
}

/// A jump returns when the `rs1` field names `ra` (register 1) and the `rd`
/// field names `zero` (register 0). The two fields are read at their `jalr`
/// positions whichever of the two opcodes the word carries.
pub open spec fn is_return(inst: u32) -> bool {
    rs1_of(inst) == 1 && rd_of(inst) == 0
}

/// The sum of two 64-bit values, wrapping round at 2^64.
pub open spec fn wrapping_sum(a: u64, b: u64) -> u64 {
    if a + b > u64::MAX {
        (a + b - 0x1_0000_0000_0000_0000) as u64
    } else {
        (a + b) as u64
    }
}

/// Where a jump lands: `pc` plus the J-immediate for `jal`, and the `rs1`
/// register plus the I-immediate with bit 0 cleared for `jalr`. Nothing for
/// any other instruction.
pub open spec fn target_of(pc: u64, inst: u32, regs: Seq<u64>) -> Option<u64>
    recommends
        regs.len() == 32,
{
    if is_jal(inst) {
        Some(wrapping_sum(imm_j(inst), pc))
    } else if is_jalr(inst) {
        Some(wrapping_sum(imm_i(inst), regs[rs1_of(inst) as int]) & !1u64)
    } else {
        None
    }
}

/// What the tracer is told about `inst` executed at `pc`.
pub open spec fn decoded(pc: u64, inst: u32, regs: Seq<u64>) -> Option<Jump>
    recommends
        regs.len() == 32,
{
    match target_of(pc, inst, regs) {
        Some(target) => Some(
            Jump { target, kind: if is_return(inst) {
                JumpKind::Return
            } else {
                JumpKind::Call
            } },
        ),
        None => None,
    }
}

/// The number with the lowest `bits` bits set.
pub fn bitmask(bits: u8) -> (mask: u64)
    requires
        bits < 64,
    ensures
        mask == low_mask(bits),
{
    assert((1u64 << bits) >= 1) by (bit_vector)
        requires
            bits < 64,
    ;
    (1u64 << bits) - 1
}

/// Bits `a` down to `b` of `value`, moved down to bit 0.
pub fn bits(value: u64, a: u8, b: u8) -> (field: u64)
    requires
        b <= a <= 63,
        a - b < 63,
    ensures
        field == bit_field(value, a, b),
        field <= low_mask((a - b + 1) as u8),
{
    let width: u8 = a - b + 1;
    let ones: u64 = bitmask(width);
    assert(((ones << b) >> b) == ones && ((value & (ones << b)) >> b) == ((value >> b) & ones)
        && ((value >> b) & ones) <= ones) by (bit_vector)
        requires
            width + b <= 64,
            width < 64,
            ones == ((1u64 << width) - 1) as u64,
    ;
    let mask: u64 = ones << b;
    (value & mask) >> b
}

/// `value`, read as a two's complement number of `bit_width` bits, widened to
/// 64 bits.
pub fn sign_extend_to_u64(value: u64, bit_width: u8) -> (wide: u64)
    requires
        1 <= bit_width <= 64,
    ensures
        wide == sign_extended(value, bit_width),
{
    if bit_width == 64 {
        return value;
    }
    let mask: u64 = 1u64 << (bit_width - 1);
    if value & mask == 0 {
        value
    } else {
        let sign_ext: u64 = !bitmask(bit_width);
        value | sign_ext
    }
}

/// The immediate of `inst` in the given layout, sign-extended to 64 bits.
pub fn get_imm(inst: u32, imm_type: ImmType) -> (imm: u64)
    ensures
        imm == imm_of(inst, imm_type),
{
    let i: u64 = inst as u64;
    match imm_type {
        ImmType::I => sign_extend_to_u64(bits(i, 31, 20), 12),
        ImmType::J => {
            let sign: u64 = sign_extend_to_u64(bits(i, 31, 31), 1);
            let high: u64 = bits(i, 19, 12);
            let eleven: u64 = bits(i, 20, 20);
            let mid: u64 = bits(i, 30, 25);
            let low: u64 = bits(i, 24, 21);
            sign << 20 | high << 12 | eleven << 11 | mid << 5 | low << 1
        },
    }
}

/// Whether `inst` is a `jal`.
pub fn matches_jal(inst: u32) -> (hit: bool)
    ensures
        hit == is_jal(inst),
{
    inst & 0x7f == 0x6f
}

/// Whether `inst` is a `jalr`.
pub fn matches_jalr(inst: u32) -> (hit: bool)
    ensures
        hit == is_jalr(inst),
{
    inst & 0x707f == 0x67
}

/// The address that the jump `inst`, executed at `pc` with the register file
/// `regs`, transfers control to.
pub fn target_pc_gen(pc: u64, inst: u32, regs: &[u64]) -> (target: u64)
    requires
        regs@.len() == 32,
        is_jal(inst) || is_jalr(inst),
    ensures
        target_of(pc, inst, regs@) == Some(target),
{
    if matches_jal(inst) {
        let immj: u64 = get_imm(inst, ImmType::J);
        immj.wrapping_add(pc)
    } else {
        let immi: u64 = get_imm(inst, ImmType::I);
        let rs1: u64 = bits(inst as u64, 19, 15);
        assert(low_mask(5) == 31) by (bit_vector);
        let base: u64 = regs[rs1 as usize];
        let lowest: u64 = bitmask(1);
        assert(low_mask(1) == 1) by (bit_vector);
        immi.wrapping_add(base) & !lowest
    }
}

/// Classifies `inst`, executed at `pc` with the register file `regs`: nothing
/// for a word that is neither `jal` nor `jalr`, else the landing address and
/// whether the jump calls or returns.
pub fn decode(pc: u64, inst: u32, regs: &[u64]) -> (jump: Option<Jump>)
    requires
        regs@.len() == 32,
    ensures
        jump == decoded(pc, inst, regs@),
{
    if !matches_jal(inst) && !matches_jalr(inst) {
        return None;
    }
    let target: u64 = target_pc_gen(pc, inst, regs);
    let word: u64 = inst as u64;
    let kind = if bits(word, 19, 15) == 1 && bits(word, 11, 7) == 0 {
        JumpKind::Return
    } else {
        JumpKind::Call
    };
    Some(Jump { target, kind })
}

/// The difference of two 64-bit values, wrapping round at 2^64.
pub open spec fn wrapping_diff(a: u64, b: u64) -> u64 {
    if a < b {
        (a - b + 0x1_0000_0000_0000_0000) as u64
    } else {
        (a - b) as u64
    }
}

/// An offset that a `jal` can carry: even, and a 21-bit two's complement
/// number widened to 64 bits.
pub open spec fn jal_offset(offset: u64) -> bool {
    offset & 1 == 0 && (offset >> 20 == 0 || offset >> 20 == 0xfff_ffff_ffff)
}

/// An offset that a `jalr` can carry: a 12-bit two's complement number
/// widened to 64 bits.
pub open spec fn jalr_offset(offset: u64) -> bool {
    offset >> 11 == 0 || offset >> 11 == 0x1f_ffff_ffff_ffff
}

/// The `jal` word with destination register `rd` and the given offset.
pub open spec fn encode_jal(rd: u64, offset: u64) -> u32 {
    (((offset >> 20) & 1) << 31 | ((offset >> 1) & 0x3ff) << 21 | ((offset >> 11) & 1) << 20 | ((
    offset >> 12) & 0xff) << 12 | (rd & 0x1f) << 7 | 0x6f) as u32
}

/// The `jalr` word with destination register `rd`, base register `rs1` and
/// the given offset.
pub open spec fn encode_jalr(rd: u64, rs1: u64, offset: u64) -> u32 {
    ((offset & 0xfff) << 20 | (rs1 & 0x1f) << 15 | (rd & 0x1f) << 7 | 0x67) as u32
}

/// Encoding a `jal` and decoding it again gives back the register and the
/// offset, and the landing address is `pc` plus the offset.
pub proof fn lemma_jal_encode_then_decode(pc: u64, rd: u64, offset: u64, regs: Seq<u64>)
    requires
        rd < 32,
        jal_offset(offset),
    ensures
        is_jal(encode_jal(rd, offset)),
        rd_of(encode_jal(rd, offset)) == rd,
        imm_j(encode_jal(rd, offset)) == offset,
        target_of(pc, encode_jal(rd, offset), regs) == Some(wrapping_sum(offset, pc)),
{
    let inst = encode_jal(rd, offset);
    assert(is_jal(encode_jal(rd, offset)) && rd_of(encode_jal(rd, offset)) == rd && imm_j(
        encode_jal(rd, offset),
    ) == offset) by (bit_vector)
        requires
            rd < 32,
            jal_offset(offset),
    ;
}

/// Decoding a `jal` and encoding what was decoded gives back the word: the
/// offset is the landing address less `pc`.
pub proof fn lemma_jal_decode_then_encode(pc: u64, inst: u32, regs: Seq<u64>)
    requires
        is_jal(inst),
    ensures
        rd_of(inst) < 32,
        jal_offset(imm_j(inst)),
        target_of(pc, inst, regs) is Some,
        encode_jal(rd_of(inst), wrapping_diff(target_of(pc, inst, regs).unwrap(), pc)) == inst,
{
    assert(rd_of(inst) < 32 && jal_offset(imm_j(inst)) && encode_jal(rd_of(inst), imm_j(inst))
        == inst) by (bit_vector)
        requires
            is_jal(inst),
    ;
    assert(wrapping_diff(wrapping_sum(imm_j(inst), pc), pc) == imm_j(inst));
}

/// Encoding a `jalr` and decoding it again gives back the registers and the
/// offset, and the landing address is the base register plus the offset with
/// bit 0 cleared.
pub proof fn lemma_jalr_encode_then_decode(
    pc: u64,
    rd: u64,
    rs1: u64,
    offset: u64,
    regs: Seq<u64>,
)
    requires
        rd < 32,
        rs1 < 32,
        jalr_offset(offset),
    ensures
        is_jalr(encode_jalr(rd, rs1, offset)),
        !is_jal(encode_jalr(rd, rs1, offset)),
        rd_of(encode_jalr(rd, rs1, offset)) == rd,
        rs1_of(encode_jalr(rd, rs1, offset)) == rs1,
        imm_i(encode_jalr(rd, rs1, offset)) == offset,
        target_of(pc, encode_jalr(rd, rs1, offset), regs) == Some(
            wrapping_sum(offset, regs[rs1 as int]) & !1u64,
        ),
        is_return(encode_jalr(rd, rs1, offset)) <==> rs1 == 1 && rd == 0,
{
    assert(is_jalr(encode_jalr(rd, rs1, offset)) && !is_jal(encode_jalr(rd, rs1, offset))
        && rd_of(encode_jalr(rd, rs1, offset)) == rd && rs1_of(encode_jalr(rd, rs1, offset))
        == rs1 && imm_i(encode_jalr(rd, rs1, offset)) == offset) by (bit_vector)
        requires
            rd < 32,
            rs1 < 32,
            jalr_offset(offset),
    ;
}

/// Decoding a `jalr` and encoding what was decoded gives back the word. Where
/// the base register plus the offset is even, the offset is the landing
/// address less the base register.
pub proof fn lemma_jalr_decode_then_encode(pc: u64, inst: u32, regs: Seq<u64>)
    requires
        is_jalr(inst),
    ensures
        rd_of(inst) < 32,
        rs1_of(inst) < 32,
        jalr_offset(imm_i(inst)),
        encode_jalr(rd_of(inst), rs1_of(inst), imm_i(inst)) == inst,
        target_of(pc, inst, regs) is Some,
        wrapping_sum(imm_i(inst), regs[rs1_of(inst) as int]) & 1 == 0 ==> encode_jalr(
            rd_of(inst),
            rs1_of(inst),
            wrapping_diff(target_of(pc, inst, regs).unwrap(), regs[rs1_of(inst) as int]),
        ) == inst,
{
    assert(rd_of(inst) < 32 && rs1_of(inst) < 32 && jalr_offset(imm_i(inst)) && !is_jal(inst)
        && encode_jalr(rd_of(inst), rs1_of(inst), imm_i(inst)) == inst) by (bit_vector)
        requires
            is_jalr(inst),
    ;
    let base = regs[rs1_of(inst) as int];
    let sum = wrapping_sum(imm_i(inst), base);
    assert(sum & 1 == 0 ==> sum & !1u64 == sum) by (bit_vector);
    assert(wrapping_diff(sum, base) == imm_i(inst));
}

} // verus!
