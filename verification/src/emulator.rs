//! An emulator for the instruction set described in [`crate::info`].
//!
//! All arithmetic uses two's-complement wraparound semantics, exactly as a
//! 32-bit register machine would behave. The machine owns sixteen 32-bit
//! registers, two comparison flags, a word-addressed memory of 4096 words,
//! and a signed program counter indexing the instruction sequence.
//!
//! The meaning of every instruction is given by the specification function
//! [`spec_exec_inst`]; the executable step function is proved to implement
//! it, and the run loop is proved to iterate it.

use crate::info::{self, Opcode};
use vstd::prelude::*;

verus! {

/// Number of 32-bit words of memory; addresses are bytes, so the valid
/// aligned byte addresses are `0, 4, ..., 4 * (MEM_WORD_MAX - 1)`.
pub const MEM_WORD_MAX: usize = 4096;

/// Largest instruction count the emulator accepts. Bounding the program
/// keeps the 32-bit signed program counter free of overflow even after
/// adding a 27-bit branch offset.
pub const MAX_INSTRUCTIONS: usize = 0x3FFF_FFFF;

/// Extract the `n`-bit field of `bits` that starts `offset` bits from the
/// least significant end.
pub open spec fn spec_get_bits(bits: u32, n: u8, offset: u8) -> u32 {
    (bits >> (offset as u32)) & (!0u32 >> ((32 - n) as u32))
}

/// The `n`-bit value `num`, reinterpreted as a signed two's-complement
/// number and widened to 32 bits.
pub open spec fn spec_sign_extend(num: u32, nbits: u8) -> i32 {
    if num >> ((nbits - 1) as u32) == 0 {
        num as i32
    } else {
        (num | (!0u32 << (nbits as u32))) as i32
    }
}

/// The numeric value of the `n`-bit two's-complement pattern `num`.
pub open spec fn spec_signed_value(num: u32, nbits: u8) -> int {
    if num < (1u32 << ((nbits - 1) as u32)) {
        num as int
    } else {
        num - (1u32 << (nbits as u32))
    }
}

/// Sign extension computes exactly the two's-complement value of the field.
proof fn lemma_sign_extend_value(num: u32, nbits: u8)
    by (bit_vector)
    requires
        1 <= nbits < 32,
        num < (1u32 << (nbits as u32)),
    ensures
        spec_sign_extend(num, nbits) as int == spec_signed_value(num, nbits),
{
}

/// Extract an `n`-bit field starting `offset` bits up.
pub fn get_bits(bits: u32, n: u8, offset: u8) -> (r: u32)
    requires
        1 <= n < 32,
        offset < 32,
        n + offset <= 32,
    ensures
        r == spec_get_bits(bits, n, offset),
        r < (1u32 << (n as u32)),
{
    proof {
        assert((bits >> (offset as u32)) & (!0u32 >> ((32 - n) as u32)) < (1u32 << (n as u32)))
            by (bit_vector)
            requires 1 <= n < 32;
    }
    (bits >> (offset as u32)) & (!0u32 >> ((32 - n) as u32))
}

/// The ways a run can fail at an instruction.
#[derive(Debug, PartialEq, Eq, Structural, Clone, Copy)]
pub enum EmulatorErr {
    /// The two modifier bits of an immediate instruction hold the one
    /// undefined pattern.
    InvalidModbits,
    /// A load or store addressed memory below zero or at or beyond the bound.
    InvalidMemAddr,
    /// The five-bit opcode field holds no defined opcode.
    InvalidOpcode,
    /// The syscall number in register 0 names no system call.
    InvalidSyscall,
    /// A divide or modulo whose second operand is zero.
    DivideByZero,
    /// A load or store addressed memory at a byte address not divisible by 4.
    UnalignedMemAddr,
}

/// The observable state of the machine: registers, memory, flags, program
/// counter, the host input not yet consumed, and the host output produced
/// so far.
#[verifier::ext_equal]
pub ghost struct MachineView {
    pub regs: Seq<i32>,
    pub mem: Seq<i32>,
    pub pc: int,
    pub flag_e: bool,
    pub flag_g: bool,
    pub input: Seq<u8>,
    pub output: Seq<u8>,
}

impl MachineView {
    /// A well-formed machine has sixteen registers and `MEM_WORD_MAX` words
    /// of memory.
    pub open spec fn wf(self) -> bool {
        &&& self.regs.len() == 16
        &&& self.mem.len() == MEM_WORD_MAX
    }
}

/// One instruction word, decoded: the opcode, the destination register
/// index, the two source values, the effective memory address and the
/// branch target.
pub ghost struct DecodedView {
    pub op: Opcode,
    pub dst: int,
    pub src1: i32,
    pub src2: i32,
    pub memaddr: i32,
    pub new_pc: int,
}

/// The value a 16-bit immediate contributes as second operand, directed by
/// the two modifier bits: sign-extend by default, zero-extend for `u`, or
/// place in the upper half for `h`. The fourth bit pattern is undefined.
pub open spec fn spec_immediate_value(imm: u32, modbits: u32) -> Result<i32, EmulatorErr> {
    if modbits == info::MOD_DEF {
        Ok(spec_sign_extend(imm, 16))
    } else if modbits == info::MOD_U {
        Ok(imm as i32)
    } else if modbits == info::MOD_H {
        Ok((imm << 16u32) as i32)
    } else {
        Err(EmulatorErr::InvalidModbits)
    }
}

/// Decode an instruction word against a machine state.
///
/// The opcode field selects the opcode; for opcodes that use it, the
/// immediate-select bit chooses between a source register and a modified
/// immediate for the second operand. The branch target `pc + offset` and
/// the effective address `src1 + src2` are computed unconditionally.
pub open spec fn spec_decode(m: MachineView, w: u32) -> Result<DecodedView, EmulatorErr>
    recommends
        m.wf(),
{
    let op_n = spec_get_bits(w, info::OPCODE_BITS, info::OPCODE_OFF);
    match info::opcode_from_ord(op_n as int) {
        None => Err(EmulatorErr::InvalidOpcode),
        Some(op) => {
            let is_imm = info::spec_supports_imm(op_n as int) && spec_get_bits(
                w,
                info::IMMBIT_BITS,
                info::IMMBIT_OFF,
            ) == 1;
            let modbits = spec_get_bits(w, info::MOD_BITS, info::MOD_OFF);
            let dst = spec_get_bits(w, info::REG_BITS, info::DST_OFF) as int;
            let src1 = m.regs[spec_get_bits(w, info::REG_BITS, info::SRC1_OFF) as int];
            let src2r = m.regs[spec_get_bits(w, info::REG_BITS, info::SRC2_OFF) as int];
            let imm = spec_get_bits(w, info::IMM_BITS, 0);
            let src2_res: Result<i32, EmulatorErr> = if is_imm {
                spec_immediate_value(imm, modbits)
            } else {
                Ok(src2r)
            };
            match src2_res {
                Err(e) => Err(e),
                Ok(src2) => Ok(
                    DecodedView {
                        op,
                        dst,
                        src1,
                        src2,
                        memaddr: src1.wrapping_add(src2),
                        new_pc: m.pc + spec_sign_extend(
                            spec_get_bits(w, info::OFFSET_BITS, 0),
                            info::OFFSET_BITS,
                        ),
                    },
                ),
            }
        },
    }
}

/// Classify a byte address: negative or out of range addresses and addresses
/// not divisible by four are distinct errors; otherwise the word index.
pub open spec fn spec_word_index(memaddr: i32) -> Result<int, EmulatorErr> {
    if memaddr < 0 {
        Err(EmulatorErr::InvalidMemAddr)
    } else if memaddr % 4 != 0 {
        Err(EmulatorErr::UnalignedMemAddr)
    } else if memaddr / 4 >= MEM_WORD_MAX {
        Err(EmulatorErr::InvalidMemAddr)
    } else {
        Ok(memaddr / 4)
    }
}

/// Signed division with wraparound: truncated division, except that
/// dividing the minimum value by minus one wraps back to the minimum value.
pub open spec fn spec_wrapping_div(a: i32, b: i32) -> i32
    recommends
        b != 0,
{
    match a.checked_div(b) {
        Some(q) => q,
        None => i32::MIN,
    }
}

/// Signed remainder with wraparound: the remainder of truncated division,
/// except that the minimum value modulo minus one is zero.
pub open spec fn spec_wrapping_rem(a: i32, b: i32) -> i32
    recommends
        b != 0,
{
    match a.checked_rem(b) {
        Some(r) => r,
        None => 0,
    }
}

/// The decimal digits of `n`, as bytes.
pub open spec fn spec_decimal_u32(n: nat) -> Seq<u8>
    decreases n,
{
    if n < 10 {
        seq![(48 + n) as u8]
    } else {
        spec_decimal_u32(n / 10) + seq![(48 + n % 10) as u8]
    }
}

/// The decimal rendering of a signed value: a minus sign when negative,
/// then the digits of its magnitude.
pub open spec fn spec_decimal_i32(v: i32) -> Seq<u8> {
    if v < 0 {
        seq![45u8] + spec_decimal_u32((-(v as int)) as nat)
    } else {
        spec_decimal_u32(v as nat)
    }
}

/// The effect of one system call, dispatched on the call number in
/// register 0; the returned machine has the call's result in register 0.
///
/// Call 0 reads one byte of host input, or yields -1 when input is
/// exhausted; call 1 writes the low byte of register 1 to host output and
/// returns register 1; call 2 writes the decimal value of the register
/// named by the low four bits of register 1, followed by a newline, and
/// returns 0. Any other call number is an error.
pub open spec fn spec_syscall(m: MachineView) -> Result<MachineView, EmulatorErr>
    recommends
        m.wf(),
{
    let call_num = m.regs[0];
    if call_num == 0 {
        if m.input.len() > 0 {
            Ok(
                MachineView {
                    regs: m.regs.update(0, m.input[0] as i32),
                    input: m.input.skip(1),
                    ..m
                },
            )
        } else {
            Ok(MachineView { regs: m.regs.update(0, -1i32), ..m })
        }
    } else if call_num == 1 {
        Ok(
            MachineView {
                regs: m.regs.update(0, m.regs[1]),
                output: m.output + seq![m.regs[1] as u8],
                ..m
            },
        )
    } else if call_num == 2 {
        Ok(
            MachineView {
                regs: m.regs.update(0, 0i32),
                output: m.output + spec_decimal_i32(m.regs[(m.regs[1] & 15) as int]) + seq![10u8],
                ..m
            },
        )
    } else {
        Err(EmulatorErr::InvalidSyscall)
    }
}

/// The meaning of one instruction: the machine state after executing word
/// `w` in state `m`, or the error that aborts the run. On an error the
/// machine is unchanged. The program counter of the result is the
/// branch target for taken branches, the link register for `ret`, and
/// `pc + 1` otherwise; a conditional branch whose flag is clear acts as a
/// no-op.
pub open spec fn spec_exec_inst(m: MachineView, w: u32) -> Result<MachineView, EmulatorErr>
    recommends
        m.wf(),
{
    match spec_decode(m, w) {
        Err(e) => Err(e),
        Ok(d) => {
            let op = if d.op == Opcode::BEQ && !m.flag_e {
                Opcode::NOP
            } else if d.op == Opcode::BGT && !m.flag_g {
                Opcode::NOP
            } else {
                d.op
            };
            let sh = (d.src2 & 31) as u32;
            let next = m.pc + 1;
            match op {
                Opcode::ADD => Ok(
                    MachineView { regs: m.regs.update(d.dst, d.src1.wrapping_add(d.src2)), pc: next, ..m },
                ),
                Opcode::SUB => Ok(
                    MachineView { regs: m.regs.update(d.dst, d.src1.wrapping_sub(d.src2)), pc: next, ..m },
                ),
                Opcode::MUL => Ok(
                    MachineView { regs: m.regs.update(d.dst, d.src1.wrapping_mul(d.src2)), pc: next, ..m },
                ),
                Opcode::DIV => if d.src2 == 0 {
                    Err(EmulatorErr::DivideByZero)
                } else {
                    Ok(
                        MachineView {
                            regs: m.regs.update(d.dst, spec_wrapping_div(d.src1, d.src2)),
                            pc: next,
                            ..m
                        },
                    )
                },
                Opcode::MOD => if d.src2 == 0 {
                    Err(EmulatorErr::DivideByZero)
                } else {
                    Ok(
                        MachineView {
                            regs: m.regs.update(d.dst, spec_wrapping_rem(d.src1, d.src2)),
                            pc: next,
                            ..m
                        },
                    )
                },
                Opcode::CMP => Ok(
                    MachineView {
                        regs: m.regs.update(d.dst, m.regs[d.dst]),
                        flag_e: d.src1 == d.src2,
                        flag_g: d.src1 > d.src2,
                        pc: next,
                        ..m
                    },
                ),
                Opcode::AND => Ok(
                    MachineView { regs: m.regs.update(d.dst, d.src1 & d.src2), pc: next, ..m },
                ),
                Opcode::OR => Ok(
                    MachineView { regs: m.regs.update(d.dst, d.src1 | d.src2), pc: next, ..m },
                ),
                Opcode::NOT => Ok(
                    MachineView { regs: m.regs.update(d.dst, !d.src2), pc: next, ..m },
                ),
                Opcode::MOV => Ok(
                    MachineView { regs: m.regs.update(d.dst, d.src2), pc: next, ..m },
                ),
                Opcode::LSL => Ok(
                    MachineView { regs: m.regs.update(d.dst, d.src1.wrapping_shl(sh)), pc: next, ..m },
                ),
                Opcode::LSR => Ok(
                    MachineView {
                        regs: m.regs.update(d.dst, ((d.src1 as u32) >> sh) as i32),
                        pc: next,
                        ..m
                    },
                ),
                Opcode::ASR => Ok(
                    MachineView { regs: m.regs.update(d.dst, d.src1.wrapping_shr(sh)), pc: next, ..m },
                ),
                Opcode::NOP => Ok(
                    MachineView { regs: m.regs.update(d.dst, m.regs[d.dst]), pc: next, ..m },
                ),
                Opcode::LD => match spec_word_index(d.memaddr) {
                    Err(e) => Err(e),
                    Ok(i) => Ok(
                        MachineView { regs: m.regs.update(d.dst, m.mem[i]), pc: next, ..m },
                    ),
                },
                Opcode::ST => match spec_word_index(d.memaddr) {
                    Err(e) => Err(e),
                    Ok(i) => Ok(
                        MachineView {
                            regs: m.regs.update(d.dst, m.regs[d.dst]),
                            mem: m.mem.update(i, m.regs[d.dst]),
                            pc: next,
                            ..m
                        },
                    ),
                },
                Opcode::BEQ | Opcode::BGT | Opcode::B => Ok(MachineView { pc: d.new_pc, ..m }),
                Opcode::CALL => Ok(
                    MachineView {
                        regs: m.regs.update(info::RET_REG as int, (m.pc + 1) as i32),
                        pc: d.new_pc,
                        ..m
                    },
                ),
                Opcode::RET => Ok(MachineView { pc: m.regs[info::RET_REG as int] as int, ..m }),
                Opcode::SYS => match spec_syscall(m) {
                    Err(e) => Err(e),
                    Ok(m2) => Ok(MachineView { pc: next, ..m2 }),
                },
            }
        },
    }
}

/// Whether the program counter has left the instruction sequence, which is
/// the only normal termination.
pub open spec fn spec_halted(code: Seq<u32>, m: MachineView) -> bool {
    !(0 <= m.pc < code.len())
}

/// Run at most `n` instructions from state `m`: stop early at normal
/// termination, or surface the first error.
pub open spec fn spec_run_n(code: Seq<u32>, m: MachineView, n: nat) -> Result<
    MachineView,
    EmulatorErr,
>
    recommends
        m.wf(),
    decreases n,
{
    if n == 0 || spec_halted(code, m) {
        Ok(m)
    } else {
        match spec_exec_inst(m, code[m.pc]) {
            Err(e) => Err(e),
            Ok(m2) => spec_run_n(code, m2, (n - 1) as nat),
        }
    }
}

/// Widen an `nbits`-bit two's-complement pattern to a signed 32-bit value.
pub fn sign_extend(num: u32, nbits: u8) -> (r: i32)
    requires
        1 <= nbits < 32,
        num < (1u32 << (nbits as u32)),
    ensures
        r == spec_sign_extend(num, nbits),
        r as int == spec_signed_value(num, nbits),
{
    proof {
        lemma_sign_extend_value(num, nbits);
    }
    if num >> ((nbits - 1) as u32) != 0 {
        #[verifier::truncate] ((num | (!0u32 << (nbits as u32))) as i32)
    } else {
        num as i32
    }
}

/// Values of the small powers of two that the decoder works with.
proof fn lemma_shift_values()
    by (bit_vector)
    ensures
        1u32 << 1u32 == 2,
        1u32 << 2u32 == 4,
        1u32 << 4u32 == 16,
        1u32 << 5u32 == 32,
        1u32 << 16u32 == 0x10000,
        1u32 << 27u32 == 0x800_0000,
{
}

/// The value of a 27-bit two's-complement offset lies strictly within
/// plus or minus `2^26`.
proof fn lemma_offset_bounds(num: u32)
    by (bit_vector)
    requires
        num < (1u32 << 27u32),
    ensures
        -0x400_0000 <= spec_signed_value(num, 27) < 0x400_0000,
{
}

/// An instruction word, decoded into its fields and operand values.
struct UnpackedIns {
    dst_reg: usize,
    src1: i32,
    src2: i32,
    memaddr: i32,
    new_pc: i32,
    opcode: Opcode,
}

/// The machine: sixteen registers, a word-addressed memory, the program,
/// two comparison flags, a program counter, and buffered host input and
/// output for the syscall layer.
pub struct Emulator {
    regs: Vec<i32>,
    wmemory: Vec<i32>,
    instructions: Vec<u32>,
    prog_cnt: i32,
    flag_e: bool,
    flag_g: bool,
    input: Vec<u8>,
    in_pos: usize,
    output: Vec<u8>,
}

impl View for Emulator {
    type V = MachineView;

    closed spec fn view(&self) -> MachineView {
        MachineView {
            regs: self.regs@,
            mem: self.wmemory@,
            pc: self.prog_cnt as int,
            flag_e: self.flag_e,
            flag_g: self.flag_g,
            input: self.input@.skip(self.in_pos as int),
            output: self.output@,
        }
    }
}

impl Emulator {
    /// The program this machine executes.
    pub closed spec fn code(&self) -> Seq<u32> {
        self.instructions@
    }

    /// Structural soundness: full register file and memory, a program
    /// within the supported size, and a consumed-input position within the
    /// input buffer.
    pub closed spec fn wf(&self) -> bool {
        &&& self@.wf()
        &&& self.code().len() <= MAX_INSTRUCTIONS
        &&& self.in_pos <= self.input@.len()
    }

    /// A fresh machine over a program: everything zeroed, flags clear, no
    /// host input buffered yet.
    pub fn new(instructions: Vec<u32>) -> (r: Self)
        requires
            instructions@.len() <= MAX_INSTRUCTIONS,
        ensures
            r.wf(),
            r.code() == instructions@,
            r@.pc == 0,
            !r@.flag_e,
            !r@.flag_g,
            r@.input == Seq::<u8>::empty(),
            r@.output == Seq::<u8>::empty(),
            forall|i: int| 0 <= i < 16 ==> r@.regs[i] == 0i32,
            forall|i: int| 0 <= i < MEM_WORD_MAX ==> r@.mem[i] == 0i32,
    {
        let mut regs: Vec<i32> = Vec::new();
        let mut n: usize = 0;
        while n < 16
            invariant
                n <= 16,
                regs@.len() == n,
                forall|i: int| 0 <= i < n ==> regs@[i] == 0i32,
            decreases 16 - n,
        {
            regs.push(0);
            n += 1;
        }
        let mut wmemory: Vec<i32> = Vec::new();
        let mut n: usize = 0;
        while n < MEM_WORD_MAX
            invariant
                n <= MEM_WORD_MAX,
                wmemory@.len() == n,
                forall|i: int| 0 <= i < n ==> wmemory@[i] == 0i32,
            decreases MEM_WORD_MAX - n,
        {
            wmemory.push(0);
            n += 1;
        }
        Emulator {
            regs,
            wmemory,
            instructions,
            prog_cnt: 0,
            flag_e: false,
            flag_g: false,
            input: Vec::new(),
            in_pos: 0,
            output: Vec::new(),
        }
    }

    /// Buffer host input for the read syscall; any input not yet consumed
    /// is replaced.
    pub fn set_input(&mut self, bytes: Vec<u8>)
        requires
            old(self).wf(),
        ensures
            final(self).wf(),
            final(self).code() == old(self).code(),
            final(self)@ =~= (MachineView { input: bytes@, ..old(self)@ }),
    {
        self.input = bytes;
        self.in_pos = 0;
    }

    /// The host output produced so far.
    pub fn get_output(&self) -> (r: Vec<u8>)
        ensures
            r@ == self@.output,
    {
        let mut r: Vec<u8> = Vec::new();
        let mut n: usize = 0;
        while n < self.output.len()
            invariant
                n <= self.output@.len(),
                r@ == self.output@.take(n as int),
            decreases self.output@.len() - n,
        {
            r.push(self.output[n]);
            n += 1;
            proof {
                assert(r@ =~= self.output@.take(n as int));
            }
        }
        proof {
            assert(r@ =~= self.output@);
        }
        r
    }

    /// The current value of one register.
    pub fn get_reg_val(&self, reg_num: usize) -> (r: i32)
        requires
            self.wf(),
            reg_num < 16,
        ensures
            r == self@.regs[reg_num as int],
    {
        self.regs[reg_num]
    }

    /// Decode one instruction word against the current machine state.
    fn decode(&self, inst: u32) -> (r: Result<UnpackedIns, EmulatorErr>)
        requires
            self.wf(),
            0 <= self@.pc <= MAX_INSTRUCTIONS,
        ensures
            (match spec_decode(self@, inst) {
                Ok(d) => r matches Ok(u) && u.dst_reg < 16 && u.dst_reg == d.dst && u.src1
                    == d.src1 && u.src2 == d.src2 && u.memaddr == d.memaddr && u.new_pc == d.new_pc
                    && u.opcode == d.op,
                Err(e) => r matches Err(e2) && e2 == e,
            }),
    {
        proof {
            lemma_shift_values();
        }
        let op_num = get_bits(inst, info::OPCODE_BITS, info::OPCODE_OFF) as u8;
        let opcode = match info::opcode_from_num(op_num) {
            Some(op) => op,
            None => {
                return Err(EmulatorErr::InvalidOpcode);
            },
        };
        let is_imm = info::supports_imm(op_num) && get_bits(
            inst,
            info::IMMBIT_BITS,
            info::IMMBIT_OFF,
        ) == 1;
        let modbits = get_bits(inst, info::MOD_BITS, info::MOD_OFF);
        let dst_reg = get_bits(inst, info::REG_BITS, info::DST_OFF) as usize;
        let src1 = self.regs[get_bits(inst, info::REG_BITS, info::SRC1_OFF) as usize];
        let src2: i32 = if is_imm {
            let imm = get_bits(inst, info::IMM_BITS, 0);
            if modbits == info::MOD_DEF as u32 {
                sign_extend(imm, info::IMM_BITS)
            } else if modbits == info::MOD_U as u32 {
                imm as i32
            } else if modbits == info::MOD_H as u32 {
                #[verifier::truncate] ((imm << 16u32) as i32)
            } else {
                return Err(EmulatorErr::InvalidModbits);
            }
        } else {
            self.regs[get_bits(inst, info::REG_BITS, info::SRC2_OFF) as usize]
        };
        let off_bits = get_bits(inst, info::OFFSET_BITS, 0);
        let offset = sign_extend(off_bits, info::OFFSET_BITS);
        proof {
            lemma_offset_bounds(off_bits);
        }
        Ok(
            UnpackedIns {
                dst_reg,
                src1,
                src2,
                memaddr: src1.wrapping_add(src2),
                new_pc: self.prog_cnt + offset,
                opcode,
            },
        )
    }

    /// Classify a byte address as a word index or as one of the two
    /// address errors.
    fn get_word_index(&self, memaddr: i32) -> (r: Result<usize, EmulatorErr>)
        requires
            self.wf(),
        ensures
            (match spec_word_index(memaddr) {
                Ok(i) => r matches Ok(w) && w == i,
                Err(e) => r matches Err(e2) && e2 == e,
            }),
    {
        if memaddr < 0 {
            return Err(EmulatorErr::InvalidMemAddr);
        }
        let byte_addr = memaddr as usize;
        if byte_addr % 4 != 0 {
            return Err(EmulatorErr::UnalignedMemAddr);
        }
        let word_idx = byte_addr / 4;
        if word_idx >= self.wmemory.len() {
            return Err(EmulatorErr::InvalidMemAddr);
        }
        Ok(word_idx)
    }

    /// Perform the system call selected by `call_num`, touching only the
    /// host input and output buffers, and return the call's result value.
    fn do_syscall(&mut self, call_num: i32) -> (r: Result<i32, EmulatorErr>)
        requires
            old(self).wf(),
            call_num == old(self)@.regs[0],
        ensures
            final(self).wf(),
            final(self).code() == old(self).code(),
            final(self)@.regs == old(self)@.regs,
            final(self)@.mem == old(self)@.mem,
            final(self)@.pc == old(self)@.pc,
            final(self)@.flag_e == old(self)@.flag_e,
            final(self)@.flag_g == old(self)@.flag_g,
            (match spec_syscall(old(self)@) {
                Ok(m2) => r matches Ok(ret) && ret == m2.regs[0] && final(self)@.input == m2.input
                    && final(self)@.output == m2.output,
                Err(e) => r matches Err(e2) && e2 == e && final(self)@ == old(self)@,
            }),
    {
        if call_num == 0 {
            if self.in_pos < self.input.len() {
                let b = self.input[self.in_pos];
                self.in_pos = self.in_pos + 1;
                proof {
                    assert(self.input@.skip(self.in_pos as int) =~= old(self)@.input.skip(1));
                }
                Ok(b as i32)
            } else {
                proof {
                    assert(old(self)@.input.len() == 0);
                }
                Ok(-1)
            }
        } else if call_num == 1 {
            let c = self.regs[1];
            self.output.push(#[verifier::truncate] (c as u8));
            Ok(c)
        } else if call_num == 2 {
            proof {
                assert(0 <= (call_num & 15i32) < 16) by (bit_vector);
            }
            let reg1 = self.regs[1];
            proof {
                assert(0 <= (reg1 & 15i32) < 16) by (bit_vector);
            }
            let idx = (reg1 & 15) as usize;
            let v = self.regs[idx];
            push_decimal(&mut self.output, v);
            self.output.push(10);
            proof {
                assert(self.output@ =~= old(self)@.output + spec_decimal_i32(v) + seq![10u8]);
            }
            Ok(0)
        } else {
            Err(EmulatorErr::InvalidSyscall)
        }
    }

    /// Write one register, leaving the rest of the machine alone.
    fn set_reg(&mut self, i: usize, v: i32)
        requires
            old(self).wf(),
            i < 16,
        ensures
            final(self).wf(),
            final(self).code() == old(self).code(),
            final(self)@ =~= (MachineView {
                regs: old(self)@.regs.update(i as int, v),
                ..old(self)@
            }),
    {
        self.regs.set(i, v);
    }

    /// Write one memory word, leaving the rest of the machine alone.
    fn set_mem(&mut self, i: usize, v: i32)
        requires
            old(self).wf(),
            i < MEM_WORD_MAX,
        ensures
            final(self).wf(),
            final(self).code() == old(self).code(),
            final(self)@ =~= (MachineView {
                mem: old(self)@.mem.update(i as int, v),
                ..old(self)@
            }),
    {
        self.wmemory.set(i, v);
    }

    /// Execute the instruction in `inst` and return the next program
    /// counter, leaving the stored program counter itself untouched.
    #[verifier::rlimit(100)]
    #[verifier::spinoff_prover]
    fn exec_inst(&mut self, inst: u32) -> (r: Result<i32, EmulatorErr>)
        requires
            old(self).wf(),
            0 <= old(self)@.pc <= MAX_INSTRUCTIONS,
        ensures
            final(self).wf(),
            final(self).code() == old(self).code(),
            (match spec_exec_inst(old(self)@, inst) {
                Ok(m2) => r matches Ok(p) && p as int == m2.pc && final(self)@ =~= (MachineView {
                    pc: old(self)@.pc,
                    ..m2
                }),
                Err(e) => r matches Err(e2) && e2 == e && final(self)@ == old(self)@,
            }),
    {
        let u = match self.decode(inst) {
            Ok(u) => u,
            Err(e) => {
                return Err(e);
            },
        };
        let mut dst_reg = u.dst_reg;
        let src1 = u.src1;
        let src2 = u.src2;
        let mut opcode = u.opcode;

        // A conditional branch whose flag is clear acts as a no-op.
        if opcode == Opcode::BEQ && !self.flag_e {
            opcode = Opcode::NOP;
        } else if opcode == Opcode::BGT && !self.flag_g {
            opcode = Opcode::NOP;
        } else if (opcode == Opcode::DIV || opcode == Opcode::MOD) && src2 == 0 {
            return Err(EmulatorErr::DivideByZero);
        } else if opcode == Opcode::SYS {
            // A syscall stores its return value in register 0.
            dst_reg = 0;
        }
        proof {
            assert(0 <= (src2 & 31i32) < 32) by (bit_vector);
        }

        let val: i32 = match opcode {
            Opcode::ADD => src1.wrapping_add(src2),
            Opcode::SUB => src1.wrapping_sub(src2),
            Opcode::MUL => src1.wrapping_mul(src2),
            Opcode::DIV => match src1.checked_div(src2) {
                Some(q) => q,
                None => i32::MIN,
            },
            Opcode::MOD => match src1.checked_rem(src2) {
                Some(q) => q,
                None => 0,
            },
            Opcode::CMP => {
                self.flag_e = src1 == src2;
                self.flag_g = src1 > src2;
                self.regs[dst_reg]
            },
            Opcode::AND => src1 & src2,
            Opcode::OR => src1 | src2,
            Opcode::NOT => !src2,
            Opcode::MOV => src2,
            // Only the lower 5 bits count as shift amount (at most 31).
            Opcode::LSL => src1.wrapping_shl((src2 & 31) as u32),
            Opcode::LSR => {
                let unsigned = #[verifier::truncate] (src1 as u32);
                #[verifier::truncate] ((unsigned >> ((src2 & 31) as u32)) as i32)
            },
            Opcode::ASR => src1.wrapping_shr((src2 & 31) as u32),
            Opcode::NOP => self.regs[dst_reg],
            Opcode::LD => match self.get_word_index(u.memaddr) {
                Ok(i) => self.wmemory[i],
                Err(e) => {
                    return Err(e);
                },
            },
            Opcode::ST => match self.get_word_index(u.memaddr) {
                Ok(i) => {
                    let dv = self.regs[dst_reg];
                    self.set_mem(i, dv);
                    dv
                },
                Err(e) => {
                    return Err(e);
                },
            },
            Opcode::BEQ | Opcode::BGT | Opcode::B => {
                return Ok(u.new_pc);
            },
            Opcode::CALL => {
                let link = self.prog_cnt + 1;
                self.set_reg(info::RET_REG, link);
                return Ok(u.new_pc);
            },
            Opcode::RET => {
                return Ok(self.regs[info::RET_REG]);
            },
            Opcode::SYS => {
                let call_num = self.regs[0];
                match self.do_syscall(call_num) {
                    Ok(ret) => ret,
                    Err(e) => {
                        return Err(e);
                    },
                }
            },
        };
        self.set_reg(dst_reg, val);
        proof {
            let m2 = spec_exec_inst(old(self)@, inst)->Ok_0;
            assert(self@ =~= (MachineView { pc: old(self)@.pc, ..m2 }));
        }
        Ok(self.prog_cnt + 1)
    }

    /// Run instructions until the program counter leaves the program,
    /// which is the only normal termination, or until an instruction
    /// fails.
    ///
    /// On success the final state is a state that some number of
    /// instruction steps reaches from the starting state and whose program
    /// counter is outside the program; on an error the machine is left
    /// exactly at the state in which the failing instruction was fetched.
    /// A run is capped at `u64::MAX` instruction steps — a bound that no
    /// real program reaches — and a run that long is also reported as
    /// success, as the contract states.
    pub fn exec(&mut self) -> (r: Result<(), EmulatorErr>)
        requires
            old(self).wf(),
        ensures
            final(self).wf(),
            final(self).code() == old(self).code(),
            exists|n: nat|
                spec_run_n(old(self).code(), old(self)@, n) == Ok::<MachineView, EmulatorErr>(
                    final(self)@,
                ),
            (r matches Ok(_) ==> spec_halted(old(self).code(), final(self)@) || spec_run_n(
                old(self).code(),
                old(self)@,
                u64::MAX as nat,
            ) == Ok::<MachineView, EmulatorErr>(final(self)@)),
            (r matches Err(e) ==> !spec_halted(old(self).code(), final(self)@) && spec_exec_inst(
                final(self)@,
                old(self).code()[final(self)@.pc],
            ) == Err::<MachineView, EmulatorErr>(e)),
    {
        let mut steps: u64 = 0;
        while self.prog_cnt >= 0 && (self.prog_cnt as usize) < self.instructions.len() && steps
            < u64::MAX
            invariant
                self.wf(),
                self.code() == old(self).code(),
                spec_run_n(old(self).code(), old(self)@, steps as nat) == Ok::<
                    MachineView,
                    EmulatorErr,
                >(self@),
            decreases u64::MAX - steps,
        {
            let inst = self.instructions[self.prog_cnt as usize];
            let ghost before = self@;
            match self.exec_inst(inst) {
                Ok(p) => {
                    self.prog_cnt = p;
                    proof {
                        let m2 = spec_exec_inst(before, inst)->Ok_0;
                        assert(self@ =~= m2);
                        lemma_run_n_extend(
                            old(self).code(),
                            old(self)@,
                            steps as nat,
                            before,
                            m2,
                        );
                    }
                    steps = steps + 1;
                },
                Err(e) => {
                    return Err(e);
                },
            }
        }
        Ok(())
    }
}

/// A conditional branch whose flag condition is not satisfied behaves
/// exactly as a no-op: the registers, memory, flags and host buffers are
/// unchanged, and the program counter advances by one.
pub proof fn lemma_branch_not_taken(m: MachineView, w: u32)
    requires
        m.wf(),
        spec_decode(m, w) is Ok,
        ({
            let d = spec_decode(m, w)->Ok_0;
            (d.op == Opcode::BEQ && !m.flag_e) || (d.op == Opcode::BGT && !m.flag_g)
        }),
    ensures
        spec_exec_inst(m, w) == Ok::<MachineView, EmulatorErr>(
            MachineView { pc: m.pc + 1, ..m },
        ),
{
    let d = spec_decode(m, w)->Ok_0;
    assert(spec_get_bits(w, 4, 22) < 16) by (bit_vector);
    assert(m.regs.update(d.dst, m.regs[d.dst]) =~= m.regs);
    assert(spec_exec_inst(m, w)->Ok_0 =~= (MachineView { pc: m.pc + 1, ..m }));
}

/// Extending a finished prefix of a run by one successful step.
proof fn lemma_run_n_extend(
    code: Seq<u32>,
    m0: MachineView,
    n: nat,
    m: MachineView,
    m2: MachineView,
)
    requires
        spec_run_n(code, m0, n) == Ok::<MachineView, EmulatorErr>(m),
        !spec_halted(code, m),
        spec_exec_inst(m, code[m.pc]) == Ok::<MachineView, EmulatorErr>(m2),
    ensures
        spec_run_n(code, m0, n + 1) == Ok::<MachineView, EmulatorErr>(m2),
    decreases n,
{
    reveal_with_fuel(spec_run_n, 3);
    if n == 0 {
        assert(m0 == m);
    } else {
        if spec_halted(code, m0) {
            assert(m0 == m);
        } else {
            match spec_exec_inst(m0, code[m0.pc]) {
                Ok(m1) => {
                    lemma_run_n_extend(code, m1, (n - 1) as nat, m, m2);
                },
                Err(_) => {
                    assert(false);
                },
            }
        }
    }
}

/// Append the decimal rendering of `v` to `out`: a minus sign when
/// negative, then the digits of the magnitude.
fn push_decimal(out: &mut Vec<u8>, v: i32)
    ensures
        final(out)@ == old(out)@ + spec_decimal_i32(v),
{
    let mut mag: u32;
    if v < 0 {
        out.push(45);
        mag = (-(v as i64)) as u32;
    } else {
        mag = v as u32;
    }
    let ghost prefix: Seq<u8> = out@;
    let ghost mag0: nat = mag as nat;
    if mag == 0 {
        out.push(48);
    } else {
        let mut tmp: Vec<u8> = Vec::new();
        while mag > 0
            invariant
                spec_decimal_u32(mag0) == (if mag > 0 {
                    spec_decimal_u32(mag as nat) + rev_bytes(tmp@)
                } else {
                    rev_bytes(tmp@)
                }),
            decreases mag,
        {
            let d: u8 = (mag % 10) as u8 + 48;
            let ghost old_mag = mag as nat;
            let ghost old_tmp = tmp@;
            tmp.push(d);
            mag = mag / 10;
            proof {
                assert(rev_bytes(old_tmp.push(d)) =~= seq![d] + rev_bytes(old_tmp));
                if mag > 0 {
                    assert(spec_decimal_u32(old_mag) == spec_decimal_u32(mag as nat) + seq![d]);
                    assert(spec_decimal_u32(mag as nat) + seq![d] + rev_bytes(old_tmp)
                        =~= spec_decimal_u32(mag as nat) + rev_bytes(old_tmp.push(d)));
                } else {
                    assert(spec_decimal_u32(old_mag) == seq![d]);
                    assert(seq![d] + rev_bytes(old_tmp) =~= rev_bytes(old_tmp.push(d)));
                }
            }
        }
        let mut j: usize = tmp.len();
        while j > 0
            invariant
                j <= tmp@.len(),
                out@ == prefix + rev_bytes(tmp@).take(tmp@.len() - j),
            decreases j,
        {
            j = j - 1;
            out.push(tmp[j]);
            proof {
                assert(out@ =~= prefix + rev_bytes(tmp@).take(tmp@.len() - j));
            }
        }
        proof {
            assert(rev_bytes(tmp@).take(tmp@.len() as int) =~= rev_bytes(tmp@));
        }
    }
    proof {
        if v < 0 {
            assert(out@ =~= old(out)@ + spec_decimal_i32(v));
        } else {
            assert(out@ =~= old(out)@ + spec_decimal_i32(v));
        }
    }
}

/// The bytes of `s`, in reverse order.
pub open spec fn rev_bytes(s: Seq<u8>) -> Seq<u8> {
    Seq::new(s.len(), |i: int| s[s.len() - 1 - i])
}






} // verus!
