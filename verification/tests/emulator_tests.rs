use simple_risc::emulator::{sign_extend, Emulator, EmulatorErr};
use simple_risc::parser::parse_code;

fn run(src: &str) -> Emulator {
    let words = parse_code(src).unwrap();
    let mut emul = Emulator::new(words);
    emul.exec().unwrap();
    emul
}

fn run_err(src: &str) -> (Emulator, EmulatorErr) {
    let words = parse_code(src).unwrap();
    let mut emul = Emulator::new(words);
    let err = emul.exec().unwrap_err();
    (emul, err)
}

#[test]
fn test_sign_extent() {
    assert_eq!(sign_extend(0b11111, 5), -1);
    assert_eq!(sign_extend(0b10000, 5), -16);
    assert_eq!(sign_extend(0b01111, 5), 15);
}

#[test]
fn test_factorial() {
    let code = "@ Recursive Factorial function test
    b main
    main:
        mov sp, 1024 @ Stack top
        mov r0, 1     @ Result
        mov r1, 5     @ N = 5
        call factorial
        call exit

    factorial:
        sub sp, sp, 4  @Stack create 4 bytes
        st r15, 0[sp]   @Save return address
        mul r0, r0, r1
        sub r1, r1, 1
        cmp r1, 1
        beq ret_last
        call factorial
    ret_last:
        ld r15, 0[sp]
        add sp, sp, 4 @Stack destroy 4 bytes
        ret

    exit: @ Nothing
    ";
    let bincode = parse_code(code).unwrap();
    let mut emul = Emulator::new(bincode);
    emul.exec().unwrap();
    assert_eq!(emul.get_reg_val(0), 120);
}

#[test]
fn test_immediate_round_trip_values() {
    // The default modifier sign-extends, so a negative literal comes
    // back from its 16-bit pattern bit-exactly.
    let emul = run("mov r0, -5\nmov r1, -32768\nmovu r2, 65535\nmov r3, 32767\n");
    assert_eq!(emul.get_reg_val(0), -5);
    assert_eq!(emul.get_reg_val(1), -32768);
    assert_eq!(emul.get_reg_val(2), 65535);
    assert_eq!(emul.get_reg_val(3), 32767);
}

#[test]
fn test_branch_not_taken_acts_as_nop() {
    // The equal flag is clear, so beq falls through to the move.
    let emul = run("mov r0, 0\ncmp r0, 1\nbeq never\nmov r1, 42\nnever:\n");
    assert_eq!(emul.get_reg_val(1), 42);
    // The greater flag is clear, so bgt falls through as well.
    let emul = run("mov r0, 0\ncmp r0, 1\nbgt never\nmov r1, 7\nnever:\n");
    assert_eq!(emul.get_reg_val(1), 7);
}

#[test]
fn test_branch_taken() {
    let emul = run("mov r0, 1\ncmp r0, 1\nbeq skip\nmov r1, 9\nskip: mov r2, 3\n");
    assert_eq!(emul.get_reg_val(1), 0);
    assert_eq!(emul.get_reg_val(2), 3);
}

#[test]
fn test_divide_by_zero_aborts() {
    let (emul, err) = run_err("mov r1, 6\nmov r2, 0\ndiv r3, r1, r2\n");
    assert_eq!(err, EmulatorErr::DivideByZero);
    // No register write took place.
    assert_eq!(emul.get_reg_val(3), 0);
    let (_, err) = run_err("mov r1, 6\nmov r2, 0\nmod r3, r1, r2\n");
    assert_eq!(err, EmulatorErr::DivideByZero);
}

#[test]
fn test_memory_address_errors() {
    let (_, err) = run_err("ld r0, -4[r1]\n");
    assert_eq!(err, EmulatorErr::InvalidMemAddr);
    let (_, err) = run_err("ld r0, 2[r1]\n");
    assert_eq!(err, EmulatorErr::UnalignedMemAddr);
    let (_, err) = run_err("movu r1, 16384\nld r0, 0[r1]\n");
    assert_eq!(err, EmulatorErr::InvalidMemAddr);
    let (_, err) = run_err("movu r1, 16384\nst r0, 0[r1]\n");
    assert_eq!(err, EmulatorErr::InvalidMemAddr);
}

#[test]
fn test_memory_round_trip() {
    let emul = run("mov r1, 100\nmov r2, -7\nst r2, 0[r1]\nld r3, 0[r1]\n");
    assert_eq!(emul.get_reg_val(3), -7);
}

#[test]
fn test_invalid_modifier_bits() {
    // An add with the immediate bit set and the undefined modifier 11.
    let word = (0u32 << 27) | (1 << 26) | (0b11 << 16) | 5;
    let mut emul = Emulator::new(vec![word]);
    assert_eq!(emul.exec().unwrap_err(), EmulatorErr::InvalidModbits);
}

#[test]
fn test_invalid_opcode() {
    let mut emul = Emulator::new(vec![25u32 << 27]);
    assert_eq!(emul.exec().unwrap_err(), EmulatorErr::InvalidOpcode);
}

#[test]
fn test_invalid_syscall() {
    let (_, err) = run_err("mov r0, 5\nsys\n");
    assert_eq!(err, EmulatorErr::InvalidSyscall);
}

#[test]
fn test_wraparound_arithmetic() {
    // 0x40000000 + 0x40000000 wraps into the sign bit.
    let emul = run("movh r1, 0x4000\nadd r2, r1, r1\n");
    assert_eq!(emul.get_reg_val(2), i32::MIN);
    // Multiplication wraps the same way.
    let emul = run("movh r1, 0x0100\nmovu r3, 256\nmul r2, r1, r3\n");
    assert_eq!(emul.get_reg_val(2), i32::MIN.wrapping_add(i32::MIN));
    // Dividing the minimum value by minus one wraps back to itself.
    let emul = run("movh r1, 0x8000\nmov r2, -1\ndiv r3, r1, r2\nmod r4, r1, r2\n");
    assert_eq!(emul.get_reg_val(3), i32::MIN);
    assert_eq!(emul.get_reg_val(4), 0);
}

#[test]
fn test_shifts() {
    let emul = run("movh r1, 0x8000\nasr r2, r1, 31\nlsr r3, r1, 31\nmov r4, 1\nlsl r5, r4, 4\n");
    assert_eq!(emul.get_reg_val(2), -1);
    assert_eq!(emul.get_reg_val(3), 1);
    assert_eq!(emul.get_reg_val(5), 16);
    // Only the low five bits of the shift amount count: 33 shifts by 1.
    let emul = run("mov r4, 1\nmov r6, 33\nlsl r5, r4, r6\n");
    assert_eq!(emul.get_reg_val(5), 2);
}

#[test]
fn test_bitwise_ops() {
    let emul = run("mov r1, 12\nmov r2, 10\nand r3, r1, r2\nor r4, r1, r2\nnot r5, r1\n");
    assert_eq!(emul.get_reg_val(3), 8);
    assert_eq!(emul.get_reg_val(4), 14);
    assert_eq!(emul.get_reg_val(5), !12);
}

#[test]
fn test_syscall_getchar() {
    let words = parse_code("mov r0, 0\nsys\n").unwrap();
    let mut emul = Emulator::new(words);
    emul.set_input(vec![65]);
    emul.exec().unwrap();
    assert_eq!(emul.get_reg_val(0), 65);
    // With no input left, the read syscall reports the sentinel.
    let words = parse_code("mov r0, 0\nsys\n").unwrap();
    let mut emul = Emulator::new(words);
    emul.exec().unwrap();
    assert_eq!(emul.get_reg_val(0), -1);
}

#[test]
fn test_syscall_putchar() {
    let emul = run("movu r1, 66\nmov r0, 1\nsys\n");
    assert_eq!(emul.get_output(), vec![66]);
    assert_eq!(emul.get_reg_val(0), 66);
}

#[test]
fn test_syscall_print_register() {
    let emul = run("mov r2, -45\nmovu r1, 2\nmov r0, 2\nsys\n");
    assert_eq!(emul.get_output(), b"-45\n".to_vec());
    assert_eq!(emul.get_reg_val(0), 0);
    let emul = run("movu r2, 1230\nmovu r1, 2\nmov r0, 2\nsys\n");
    assert_eq!(emul.get_output(), b"1230\n".to_vec());
}

#[test]
fn test_call_and_ret() {
    let emul = run("b main\nfun: mov r3, 5\nret\nmain: call fun\nmov r4, 6\n");
    assert_eq!(emul.get_reg_val(3), 5);
    assert_eq!(emul.get_reg_val(4), 6);
    // The link register holds the word index after the call.
    assert_eq!(emul.get_reg_val(15), 4);
}
