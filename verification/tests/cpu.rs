use kvstore::cpu::{Status, CPU, ERRFLAG};

#[test]
fn test_addition_simple() {
    let mut cpu = CPU::new();
    cpu.memory[0] = 0x80;
    cpu.memory[1] = 0x14;
    cpu.registers[0] = 5;
    cpu.registers[1] = 10;
    cpu.run();
    assert_eq!(cpu.registers[0], 15);
    assert_eq!(cpu.registers[ERRFLAG], 0);
}

#[test]
fn test_addition_overflow() {
    let mut cpu = CPU::new();
    cpu.memory[0] = 0x80;
    cpu.memory[1] = 0x14;
    cpu.registers[0] = 255;
    cpu.registers[1] = 255;
    cpu.run();
    assert_eq!(cpu.registers[0], 254);
    assert_eq!(cpu.registers[ERRFLAG], 1);
}

#[test]
fn test_addition_multiple() {
    let mut cpu = CPU::new();

    cpu.registers[0] = 5;
    for i in (0..6).step_by(2) {
        cpu.memory[i] = 0x80;
        cpu.memory[i + 1] = 0x04 + ((i / 2 + 1) as u8) * 0x10;
        cpu.registers[i / 2 + 1] = 10 + (i as u8);
    }
    cpu.run();

    assert_eq!(cpu.registers[0], 41);
    assert_eq!(cpu.registers[ERRFLAG], 0);
}

#[test]
fn test_funccall() {
    let mut cpu = CPU::new();

    cpu.registers[0] = 5;
    cpu.registers[1] = 10;

    let mem = &mut cpu.memory;
    // Call "add twice function"
    mem[0x000..0x002].copy_from_slice(&[0x21, 0x00]);
    mem[0x002..0x004].copy_from_slice(&[0x21, 0x00]);
    // "Add twice function"
    mem[0x100..0x106].copy_from_slice(&[0x80, 0x14, 0x80, 0x14, 0x00, 0xEE]);

    cpu.run();

    assert_eq!(cpu.registers[0], 45);
    assert_eq!(cpu.registers[ERRFLAG], 0);
}

#[test]
fn test_new_machine_is_all_zero() {
    let cpu = CPU::new();
    assert!(cpu.memory.iter().all(|b| *b == 0));
    assert!(cpu.registers.iter().all(|b| *b == 0));
    assert!(cpu.stack.iter().all(|b| *b == 0));
    assert_eq!(cpu.pcounter, 0);
    assert_eq!(cpu.stackptr, 0);
}

#[test]
fn test_parse_opcode_splits_nibbles() {
    assert_eq!(CPU::parse_opcode(0x8124), (0x8, 0x1, 0x2, 0x4, 0x124));
    assert_eq!(CPU::parse_opcode(0x2ABC), (0x2, 0xA, 0xB, 0xC, 0xABC));
    assert_eq!(CPU::parse_opcode(0x0000), (0, 0, 0, 0, 0));
    assert_eq!(CPU::parse_opcode(0xFFFF), (0xF, 0xF, 0xF, 0xF, 0xFFF));
}

#[test]
fn test_read_opcode_is_big_endian() {
    let mut cpu = CPU::new();
    cpu.memory[4] = 0x12;
    cpu.memory[5] = 0x34;
    cpu.pcounter = 4;
    assert_eq!(cpu.read_opcode(), 0x1234);
    assert_eq!(cpu.pcounter, 6);
}

#[test]
fn test_halt_moves_past_the_instruction() {
    let mut cpu = CPU::new();
    assert_eq!(cpu.step(), Status::Halted);
    assert_eq!(cpu.pcounter, 2);
}

#[test]
fn test_add_into_flag_register_keeps_the_carry() {
    let mut cpu = CPU::new();
    cpu.registers[15] = 200;
    cpu.registers[1] = 100;
    cpu.add_xy(15, 1);
    assert_eq!(cpu.registers[15], 1);
    cpu.registers[15] = 3;
    cpu.add_xy(15, 1);
    assert_eq!(cpu.registers[15], 0);
}

#[test]
fn test_call_and_ret_use_the_stack() {
    let mut cpu = CPU::new();
    cpu.pcounter = 0x12;
    cpu.call(0x100);
    assert_eq!(cpu.pcounter, 0x100);
    assert_eq!(cpu.stackptr, 1);
    assert_eq!(cpu.stack[0], 0x12);
    cpu.ret();
    assert_eq!(cpu.pcounter, 0x12);
    assert_eq!(cpu.stackptr, 0);
}

#[test]
fn test_unknown_opcode_leaves_the_machine_alone() {
    let mut cpu = CPU::new();
    cpu.memory[0] = 0x12;
    cpu.memory[1] = 0x34;
    assert_eq!(cpu.step(), Status::UnknownOpcode);
    assert_eq!(cpu.pcounter, 0);
    assert_eq!(cpu.run_bounded(10), Status::UnknownOpcode);
}

#[test]
fn test_return_on_empty_stack_underflows() {
    let mut cpu = CPU::new();
    cpu.memory[0] = 0x00;
    cpu.memory[1] = 0xEE;
    assert_eq!(cpu.step(), Status::StackUnderflow);
    assert_eq!(cpu.pcounter, 0);
    assert_eq!(cpu.stackptr, 0);
}

#[test]
fn test_endless_recursion_overflows_the_stack() {
    let mut cpu = CPU::new();
    cpu.memory[0] = 0x20;
    cpu.memory[1] = 0x00;
    assert_eq!(cpu.run_bounded(15), Status::Running);
    assert_eq!(cpu.stackptr, 15);
    assert_eq!(cpu.step(), Status::StackOverflow);
    assert_eq!(cpu.stackptr, 15);
    assert_eq!(cpu.pcounter, 0);
}

#[test]
fn test_program_counter_at_the_end_of_memory() {
    let mut cpu = CPU::new();
    cpu.pcounter = 0xFFF;
    assert_eq!(cpu.step(), Status::BadAddress);
    cpu.pcounter = 0xFFE;
    assert_eq!(cpu.step(), Status::Halted);
    assert_eq!(cpu.pcounter, 0x1000);
}

#[test]
fn test_run_bounded_stops_when_steps_run_out() {
    let mut cpu = CPU::new();
    cpu.registers[1] = 1;
    for i in 0..4 {
        cpu.memory[2 * i] = 0x80;
        cpu.memory[2 * i + 1] = 0x14;
    }
    assert_eq!(cpu.run_bounded(0), Status::Running);
    assert_eq!(cpu.pcounter, 0);
    assert_eq!(cpu.run_bounded(3), Status::Running);
    assert_eq!(cpu.registers[0], 3);
    assert_eq!(cpu.run_bounded(5), Status::Halted);
    assert_eq!(cpu.registers[0], 4);
    assert_eq!(cpu.pcounter, 10);
}
