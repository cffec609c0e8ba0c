//! Static description of the instruction set: opcodes, operand counts,
//! mnemonics, and the bit positions of every field of an instruction word.
//!
//! Each instruction is 32 bits wide and uses one of three layouts
//! (bit 31 is the most significant):
//!
//! * register operand: `opcode(5) imm=0(1) dst(4) src1(4) src2(4) unused(14)`
//! * immediate operand: `opcode(5) imm=1(1) dst(4) src1(4) mod(2) imm(16)`
//! * single offset: `opcode(5) signed word offset(27)`
//! * no operand: `opcode(5) unused(27)`

use vstd::prelude::*;

verus! {

/// Register index that receives the return address on `call`.
pub const RET_REG: usize = 15;

// Bit offsets of the instruction-word fields.
pub const OPCODE_OFF: u8 = 27;
pub const IMMBIT_OFF: u8 = 26;
pub const DST_OFF: u8 = 22;
pub const SRC1_OFF: u8 = 18;
pub const MOD_OFF: u8 = 16;
pub const SRC2_OFF: u8 = 14;

// Widths in bits of the instruction-word fields.
pub const OPCODE_BITS: u8 = 5;
pub const IMMBIT_BITS: u8 = 1;
pub const REG_BITS: u8 = 4;
pub const MOD_BITS: u8 = 2;
pub const IMM_BITS: u8 = 16;
pub const OFFSET_BITS: u8 = 27;

// The two-bit immediate modifier: how a 16-bit immediate widens to 32 bits.
/// Default modifier: sign-extend the immediate.
pub const MOD_DEF: u8 = 0b00;
/// `u` suffix: zero-extend the immediate.
pub const MOD_U: u8 = 0b01;
/// `h` suffix: place the immediate in the upper half, lower half zero.
pub const MOD_H: u8 = 0b10;

/// The operations of the instruction set. The position of a variant in this
/// declaration is its opcode ordinal, which `opcode_num` makes explicit.
#[derive(Debug, Eq, PartialEq, Structural, Clone, Copy)]
pub enum Opcode {
    ADD,
    SUB,
    MUL,
    DIV,
    MOD,
    CMP,
    AND,
    OR,
    NOT,
    MOV,
    LSL,
    LSR,
    ASR,
    NOP,
    LD,
    ST,
    BEQ,
    BGT,
    B,
    CALL,
    RET,
    SYS,
}

/// How many opcodes there are; valid ordinals are `0 .. OPCODE_COUNT`.
pub const OPCODE_COUNT: u8 = 22;

/// The ordinal of an opcode: its position in the fixed instruction table and
/// the value stored in the five-bit opcode field of an encoded word.
pub open spec fn opcode_ord(op: Opcode) -> int {
    match op {
        Opcode::ADD => 0,
        Opcode::SUB => 1,
        Opcode::MUL => 2,
        Opcode::DIV => 3,
        Opcode::MOD => 4,
        Opcode::CMP => 5,
        Opcode::AND => 6,
        Opcode::OR => 7,
        Opcode::NOT => 8,
        Opcode::MOV => 9,
        Opcode::LSL => 10,
        Opcode::LSR => 11,
        Opcode::ASR => 12,
        Opcode::NOP => 13,
        Opcode::LD => 14,
        Opcode::ST => 15,
        Opcode::BEQ => 16,
        Opcode::BGT => 17,
        Opcode::B => 18,
        Opcode::CALL => 19,
        Opcode::RET => 20,
        Opcode::SYS => 21,
    }
}

/// The opcode with a given ordinal, if the ordinal is in range.
pub open spec fn opcode_from_ord(n: int) -> Option<Opcode> {
    if n == 0 {
        Some(Opcode::ADD)
    } else if n == 1 {
        Some(Opcode::SUB)
    } else if n == 2 {
        Some(Opcode::MUL)
    } else if n == 3 {
        Some(Opcode::DIV)
    } else if n == 4 {
        Some(Opcode::MOD)
    } else if n == 5 {
        Some(Opcode::CMP)
    } else if n == 6 {
        Some(Opcode::AND)
    } else if n == 7 {
        Some(Opcode::OR)
    } else if n == 8 {
        Some(Opcode::NOT)
    } else if n == 9 {
        Some(Opcode::MOV)
    } else if n == 10 {
        Some(Opcode::LSL)
    } else if n == 11 {
        Some(Opcode::LSR)
    } else if n == 12 {
        Some(Opcode::ASR)
    } else if n == 13 {
        Some(Opcode::NOP)
    } else if n == 14 {
        Some(Opcode::LD)
    } else if n == 15 {
        Some(Opcode::ST)
    } else if n == 16 {
        Some(Opcode::BEQ)
    } else if n == 17 {
        Some(Opcode::BGT)
    } else if n == 18 {
        Some(Opcode::B)
    } else if n == 19 {
        Some(Opcode::CALL)
    } else if n == 20 {
        Some(Opcode::RET)
    } else if n == 21 {
        Some(Opcode::SYS)
    } else {
        None
    }
}

/// The ordinal of an opcode, as an executable value.
pub fn opcode_num(op: Opcode) -> (n: u8)
    ensures
        n == opcode_ord(op),
        n < OPCODE_COUNT,
{
    match op {
        Opcode::ADD => 0,
        Opcode::SUB => 1,
        Opcode::MUL => 2,
        Opcode::DIV => 3,
        Opcode::MOD => 4,
        Opcode::CMP => 5,
        Opcode::AND => 6,
        Opcode::OR => 7,
        Opcode::NOT => 8,
        Opcode::MOV => 9,
        Opcode::LSL => 10,
        Opcode::LSR => 11,
        Opcode::ASR => 12,
        Opcode::NOP => 13,
        Opcode::LD => 14,
        Opcode::ST => 15,
        Opcode::BEQ => 16,
        Opcode::BGT => 17,
        Opcode::B => 18,
        Opcode::CALL => 19,
        Opcode::RET => 20,
        Opcode::SYS => 21,
    }
}

/// Recover an opcode from its ordinal.
pub fn opcode_from_num(n: u8) -> (r: Option<Opcode>)
    ensures
        r == opcode_from_ord(n as int),
        r is Some <==> n < OPCODE_COUNT,
        r matches Some(op) ==> opcode_ord(op) == n,
{
    match n {
        0 => Some(Opcode::ADD),
        1 => Some(Opcode::SUB),
        2 => Some(Opcode::MUL),
        3 => Some(Opcode::DIV),
        4 => Some(Opcode::MOD),
        5 => Some(Opcode::CMP),
        6 => Some(Opcode::AND),
        7 => Some(Opcode::OR),
        8 => Some(Opcode::NOT),
        9 => Some(Opcode::MOV),
        10 => Some(Opcode::LSL),
        11 => Some(Opcode::LSR),
        12 => Some(Opcode::ASR),
        13 => Some(Opcode::NOP),
        14 => Some(Opcode::LD),
        15 => Some(Opcode::ST),
        16 => Some(Opcode::BEQ),
        17 => Some(Opcode::BGT),
        18 => Some(Opcode::B),
        19 => Some(Opcode::CALL),
        20 => Some(Opcode::RET),
        21 => Some(Opcode::SYS),
        _ => None,
    }
}

/// How many destination operands an opcode takes (0 or 1).
pub open spec fn spec_ndst(op: Opcode) -> int {
    match op {
        Opcode::ADD | Opcode::SUB | Opcode::MUL | Opcode::DIV | Opcode::MOD => 1,
        Opcode::AND | Opcode::OR | Opcode::NOT | Opcode::MOV => 1,
        Opcode::LSL | Opcode::LSR | Opcode::ASR => 1,
        Opcode::LD | Opcode::ST => 1,
        Opcode::CMP => 0,
        Opcode::NOP => 0,
        Opcode::BEQ | Opcode::BGT | Opcode::B | Opcode::CALL => 0,
        Opcode::RET | Opcode::SYS => 0,
    }
}

/// How many source operands an opcode takes (0, 1 or 2).
pub open spec fn spec_nsrc(op: Opcode) -> int {
    match op {
        Opcode::ADD | Opcode::SUB | Opcode::MUL | Opcode::DIV | Opcode::MOD => 2,
        Opcode::CMP | Opcode::AND | Opcode::OR => 2,
        Opcode::NOT | Opcode::MOV => 1,
        Opcode::LSL | Opcode::LSR | Opcode::ASR => 2,
        Opcode::LD | Opcode::ST => 2,
        Opcode::BEQ | Opcode::BGT | Opcode::B | Opcode::CALL => 1,
        Opcode::NOP | Opcode::RET | Opcode::SYS => 0,
    }
}

/// Destination-operand count, as an executable value.
pub fn ndst_of(op: Opcode) -> (n: u8)
    ensures
        n == spec_ndst(op),
{
    match op {
        Opcode::ADD | Opcode::SUB | Opcode::MUL | Opcode::DIV | Opcode::MOD => 1,
        Opcode::AND | Opcode::OR | Opcode::NOT | Opcode::MOV => 1,
        Opcode::LSL | Opcode::LSR | Opcode::ASR => 1,
        Opcode::LD | Opcode::ST => 1,
        _ => 0,
    }
}

/// Source-operand count, as an executable value.
pub fn nsrc_of(op: Opcode) -> (n: u8)
    ensures
        n == spec_nsrc(op),
{
    match op {
        Opcode::ADD | Opcode::SUB | Opcode::MUL | Opcode::DIV | Opcode::MOD => 2,
        Opcode::CMP | Opcode::AND | Opcode::OR => 2,
        Opcode::LSL | Opcode::LSR | Opcode::ASR => 2,
        Opcode::LD | Opcode::ST => 2,
        Opcode::NOT | Opcode::MOV => 1,
        Opcode::BEQ | Opcode::BGT | Opcode::B | Opcode::CALL => 1,
        Opcode::NOP | Opcode::RET | Opcode::SYS => 0,
    }
}

/// The mnemonic of an opcode, as a sequence of characters.
pub open spec fn spec_name(op: Opcode) -> Seq<char> {
    match op {
        Opcode::ADD => "add"@,
        Opcode::SUB => "sub"@,
        Opcode::MUL => "mul"@,
        Opcode::DIV => "div"@,
        Opcode::MOD => "mod"@,
        Opcode::CMP => "cmp"@,
        Opcode::AND => "and"@,
        Opcode::OR => "or"@,
        Opcode::NOT => "not"@,
        Opcode::MOV => "mov"@,
        Opcode::LSL => "lsl"@,
        Opcode::LSR => "lsr"@,
        Opcode::ASR => "asr"@,
        Opcode::NOP => "nop"@,
        Opcode::LD => "ld"@,
        Opcode::ST => "st"@,
        Opcode::BEQ => "beq"@,
        Opcode::BGT => "bgt"@,
        Opcode::B => "b"@,
        Opcode::CALL => "call"@,
        Opcode::RET => "ret"@,
        Opcode::SYS => "sys"@,
    }
}

/// The mnemonic of an opcode, as an executable string.
pub fn name_of(op: Opcode) -> (s: &'static str)
    ensures
        s@ == spec_name(op),
{
    match op {
        Opcode::ADD => "add",
        Opcode::SUB => "sub",
        Opcode::MUL => "mul",
        Opcode::DIV => "div",
        Opcode::MOD => "mod",
        Opcode::CMP => "cmp",
        Opcode::AND => "and",
        Opcode::OR => "or",
        Opcode::NOT => "not",
        Opcode::MOV => "mov",
        Opcode::LSL => "lsl",
        Opcode::LSR => "lsr",
        Opcode::ASR => "asr",
        Opcode::NOP => "nop",
        Opcode::LD => "ld",
        Opcode::ST => "st",
        Opcode::BEQ => "beq",
        Opcode::BGT => "bgt",
        Opcode::B => "b",
        Opcode::CALL => "call",
        Opcode::RET => "ret",
        Opcode::SYS => "sys",
    }
}

/// A table entry describing one instruction: its mnemonic, opcode, operand
/// counts and, once resolved from a mnemonic suffix, its immediate modifier.
#[derive(Debug, PartialEq, Eq, Clone, Copy)]
pub struct Instruction {
    pub name: &'static str,
    pub opcode: Opcode,
    pub ndst: u8,
    pub nsrc: u8,
    pub modbits: u8,
}

impl Instruction {
    /// An instruction descriptor agrees with the static table for its opcode.
    pub open spec fn wf(self) -> bool {
        &&& self.name@ == spec_name(self.opcode)
        &&& self.ndst == spec_ndst(self.opcode)
        &&& self.nsrc == spec_nsrc(self.opcode)
        &&& (self.modbits == MOD_DEF || self.modbits == MOD_U || self.modbits == MOD_H)
        &&& self.modbits != MOD_DEF ==> spec_supports_mod(opcode_ord(self.opcode))
    }
}

/// Build the descriptor of an opcode with a given modifier.
pub fn descriptor(op: Opcode, modbits: u8) -> (r: Instruction)
    requires
        modbits == MOD_DEF || modbits == MOD_U || modbits == MOD_H,
        modbits != MOD_DEF ==> spec_supports_mod(opcode_ord(op)),
    ensures
        r.wf(),
        r.opcode == op,
        r.modbits == modbits,
{
    Instruction {
        name: name_of(op),
        opcode: op,
        ndst: ndst_of(op),
        nsrc: nsrc_of(op),
        modbits,
    }
}

/// Whether the opcode with this ordinal may carry a `u` or `h` modifier
/// suffix: only the opcodes at or before `mov` in the table may.
pub open spec fn spec_supports_mod(n: int) -> bool {
    n <= opcode_ord(Opcode::MOV)
}

/// Whether an opcode ordinal admits an immediate modifier suffix.
pub fn supports_mod(opcode: u8) -> (r: bool)
    ensures
        r == spec_supports_mod(opcode as int),
{
    opcode <= 9
}

/// Whether the opcode with this ordinal is encoded with an immediate-select
/// bit: exactly the opcodes that take two operands besides any label, that
/// is, those whose destination and source counts sum to at least two.
pub open spec fn spec_supports_imm(n: int) -> bool {
    match opcode_from_ord(n) {
        Some(op) => spec_ndst(op) + spec_nsrc(op) >= 2,
        None => false,
    }
}

/// Whether an opcode ordinal uses the immediate-select bit.
pub fn supports_imm(opcode: u8) -> (r: bool)
    ensures
        r == spec_supports_imm(opcode as int),
{
    match opcode_from_num(opcode) {
        Some(op) => ndst_of(op) + nsrc_of(op) >= 2,
        None => false,
    }
}

} // verus!
