use chip_8::cpu::{Address, Cpu, Display};
use chip_8::peripheral::{Peripheral, FRAMEBUFFER_START, MEMORY_LENGTH};
use chip_8::Error;

/// A reset interpreter and a memory holding `program` at 0x200.
fn machine(program: &[u8]) -> (Cpu, Peripheral) {
    let mut memory = [0u8; MEMORY_LENGTH];
    memory[0x200..0x200 + program.len()].copy_from_slice(program);
    (Cpu::new(), Peripheral::new(memory))
}

fn run(cpu: &mut Cpu, p: &mut Peripheral, steps: usize) {
    for _ in 0..steps {
        cpu.step(p).unwrap();
    }
}

#[test]
fn add_sets_carry() {
    let (mut cpu, mut p) = machine(&[0x6a, 0xff, 0x6b, 0x02, 0x8a, 0xb4]);
    run(&mut cpu, &mut p, 3);
    assert_eq!(cpu.vs.0[0xa], 0x01);
    assert_eq!(cpu.vs.0[0xf], 1);
}

#[test]
fn add_without_carry_clears_flag() {
    let (mut cpu, mut p) = machine(&[0x6f, 0x07, 0x6a, 0x10, 0x6b, 0x02, 0x8a, 0xb4]);
    run(&mut cpu, &mut p, 4);
    assert_eq!(cpu.vs.0[0xa], 0x12);
    assert_eq!(cpu.vs.0[0xf], 0);
}

#[test]
fn sub_flags_no_borrow() {
    let (mut cpu, mut p) = machine(&[0x6a, 0x05, 0x6b, 0x03, 0x8a, 0xb5]);
    run(&mut cpu, &mut p, 3);
    assert_eq!(cpu.vs.0[0xa], 0x02);
    assert_eq!(cpu.vs.0[0xf], 1);

    let (mut cpu, mut p) = machine(&[0x6a, 0x03, 0x6b, 0x05, 0x8a, 0xb5]);
    run(&mut cpu, &mut p, 3);
    assert_eq!(cpu.vs.0[0xa], 0xfe);
    assert_eq!(cpu.vs.0[0xf], 0);
}

#[test]
fn inverse_sub_flags_no_borrow() {
    let (mut cpu, mut p) = machine(&[0x6a, 0x03, 0x6b, 0x05, 0x8a, 0xb7]);
    run(&mut cpu, &mut p, 3);
    assert_eq!(cpu.vs.0[0xa], 0x02);
    assert_eq!(cpu.vs.0[0xf], 1);
}

#[test]
fn shifts_take_the_source_register() {
    let (mut cpu, mut p) = machine(&[0x6b, 0x03, 0x8a, 0xb6]);
    run(&mut cpu, &mut p, 2);
    assert_eq!(cpu.vs.0[0xa], 0x01);
    assert_eq!(cpu.vs.0[0xf], 1);

    let (mut cpu, mut p) = machine(&[0x6b, 0x81, 0x8a, 0xbe]);
    run(&mut cpu, &mut p, 2);
    assert_eq!(cpu.vs.0[0xa], 0x02);
    assert_eq!(cpu.vs.0[0xf], 1);
}

#[test]
fn logic_operations_reset_flag() {
    let (mut cpu, mut p) = machine(&[0x6f, 0x09, 0x6a, 0x0c, 0x6b, 0x0a, 0x8a, 0xb1]);
    run(&mut cpu, &mut p, 4);
    assert_eq!(cpu.vs.0[0xa], 0x0e);
    assert_eq!(cpu.vs.0[0xf], 0);

    let (mut cpu, mut p) = machine(&[0x6f, 0x09, 0x6a, 0x0c, 0x6b, 0x0a, 0x8a, 0xb2]);
    run(&mut cpu, &mut p, 4);
    assert_eq!(cpu.vs.0[0xa], 0x08);
    assert_eq!(cpu.vs.0[0xf], 0);

    let (mut cpu, mut p) = machine(&[0x6f, 0x09, 0x6a, 0x0c, 0x6b, 0x0a, 0x8a, 0xb3]);
    run(&mut cpu, &mut p, 4);
    assert_eq!(cpu.vs.0[0xa], 0x06);
    assert_eq!(cpu.vs.0[0xf], 0);
}

#[test]
fn inc_wraps_and_keeps_flag() {
    let (mut cpu, mut p) = machine(&[0x6f, 0x05, 0x6a, 0x02, 0x7a, 0xff]);
    run(&mut cpu, &mut p, 3);
    assert_eq!(cpu.vs.0[0xa], 0x01);
    assert_eq!(cpu.vs.0[0xf], 0x05);
}

#[test]
fn bcd_stores_three_digits() {
    let (mut cpu, mut p) = machine(&[0x60, 0xfe, 0xa3, 0x00, 0xf0, 0x33]);
    run(&mut cpu, &mut p, 3);
    assert_eq!(p.memory[0x300..0x303], [2, 5, 4]);
    assert_eq!(cpu.i.value(), 0x300);
}

#[test]
fn store_and_load_registers_move_index() {
    let (mut cpu, mut p) = machine(&[
        0x60, 0x11, 0x61, 0x22, 0x62, 0x33, 0xa3, 0x00, 0xf2, 0x55, 0xa3, 0x00, 0xf1, 0x65,
    ]);
    run(&mut cpu, &mut p, 5);
    assert_eq!(p.memory[0x300..0x304], [0x11, 0x22, 0x33, 0x00]);
    assert_eq!(cpu.i.value(), 0x303);

    cpu.vs.0 = [0; 16];
    run(&mut cpu, &mut p, 2);
    assert_eq!(cpu.vs.0[..3], [0x11, 0x22, 0x00]);
    assert_eq!(cpu.i.value(), 0x302);
}

#[test]
fn call_then_return() {
    let mut program = [0u8; 10];
    program[0..2].copy_from_slice(&[0x22, 0x08]);
    program[8..10].copy_from_slice(&[0x00, 0xee]);
    let (mut cpu, mut p) = machine(&program);

    run(&mut cpu, &mut p, 1);
    assert_eq!(cpu.pc, Address::new(0x208));
    assert_eq!(cpu.sp, Address::new(0xefd));
    assert_eq!(p.memory[0xefe..0xf00], [0x02, 0x02]);

    run(&mut cpu, &mut p, 1);
    assert_eq!(cpu.pc, Address::new(0x202));
    assert_eq!(cpu.sp, Address::new(0xeff));
}

#[test]
fn skips_over_next_instruction() {
    let (mut cpu, mut p) = machine(&[0x6a, 0x05, 0x3a, 0x05]);
    run(&mut cpu, &mut p, 2);
    assert_eq!(cpu.pc.value(), 0x206);

    let (mut cpu, mut p) = machine(&[0x6a, 0x05, 0x4a, 0x05]);
    run(&mut cpu, &mut p, 2);
    assert_eq!(cpu.pc.value(), 0x204);

    let (mut cpu, mut p) = machine(&[0x6a, 0x05, 0x6b, 0x05, 0x5a, 0xb0, 0x00, 0x00, 0x9a, 0xb0]);
    run(&mut cpu, &mut p, 4);
    assert_eq!(cpu.pc.value(), 0x20a);
}

#[test]
fn jump_with_offset() {
    let (mut cpu, mut p) = machine(&[0x60, 0x02, 0xb3, 0x00]);
    run(&mut cpu, &mut p, 2);
    assert_eq!(cpu.pc.value(), 0x302);
}

#[test]
fn unknown_instruction_changes_nothing() {
    let (mut cpu, mut p) = machine(&[0x5a, 0xb1]);
    let before = p.memory;

    assert_eq!(cpu.step(&mut p), Err(Error::UnknownOpCode(0x5ab1)));
    assert_eq!(cpu.pc.value(), 0x200);
    assert_eq!(p.memory, before);
}

#[test]
fn draw_reports_collision_in_flag() {
    // I = 0x20a, V0 = V1 = 0, draw twice, loop.
    let (mut cpu, mut p) = machine(&[
        0xa2, 0x0c, 0xd0, 0x11, 0xd0, 0x11, 0xd0, 0x11, 0x12, 0x08, 0x00, 0x00, 0xc3,
    ]);
    run(&mut cpu, &mut p, 2);
    assert_eq!(p.memory[FRAMEBUFFER_START], 0xc3);
    assert_eq!(cpu.vs.0[0xf], 0);

    run(&mut cpu, &mut p, 1);
    assert_eq!(p.memory[FRAMEBUFFER_START], 0x00);
    assert_eq!(cpu.vs.0[0xf], 1);
}

#[test]
fn clear_instruction_darkens_screen() {
    let (mut cpu, mut p) = machine(&[0x00, 0xe0]);
    p.memory[FRAMEBUFFER_START + 7] = 0xff;
    p.memory[0x300] = 0xff;
    run(&mut cpu, &mut p, 1);
    assert_eq!(p.memory[FRAMEBUFFER_START + 7], 0);
    assert_eq!(p.memory[0x300], 0xff);
}

#[test]
fn wait_key_repeats_without_keypad() {
    let (mut cpu, mut p) = machine(&[0xf3, 0x0a]);
    run(&mut cpu, &mut p, 3);
    assert_eq!(cpu.pc.value(), 0x200);
}

#[test]
fn key_skips_without_keypad() {
    let (mut cpu, mut p) = machine(&[0xe0, 0x9e]);
    run(&mut cpu, &mut p, 1);
    assert_eq!(cpu.pc.value(), 0x202);

    let (mut cpu, mut p) = machine(&[0xe0, 0xa1]);
    run(&mut cpu, &mut p, 1);
    assert_eq!(cpu.pc.value(), 0x204);
}

#[test]
fn timers_count_down_to_zero() {
    let (mut cpu, mut p) = machine(&[0x60, 0x02, 0xf0, 0x15, 0xf0, 0x18, 0xf1, 0x07]);
    run(&mut cpu, &mut p, 3);
    assert_eq!((cpu.dt, cpu.st), (2, 2));

    cpu.tick_timer();
    run(&mut cpu, &mut p, 1);
    assert_eq!(cpu.vs.0[1], 1);

    cpu.tick_timer();
    cpu.tick_timer();
    assert_eq!((cpu.dt, cpu.st), (0, 0));
}

#[test]
fn index_increment_wraps() {
    let (mut cpu, mut p) = machine(&[0xaf, 0xff, 0x60, 0x02, 0xf0, 0x1e]);
    run(&mut cpu, &mut p, 3);
    assert_eq!(cpu.i.value(), 0x001);
}

#[test]
fn wrapping_add_then_sub_returns() {
    for a in [0x000, 0x001, 0x7ff, 0xfff] {
        for n in [0, 1, 0xfff, 0x1000, 0xffff] {
            assert_eq!(Address::new(a).wrapping_add(n).wrapping_sub(n), Address::new(a));
        }
    }
}

#[test]
fn draw_twice_restores_screen() {
    let mut p = Peripheral::new([0x5a; MEMORY_LENGTH]);
    let before = p.memory;

    p.draw(61, 30, &[0xde, 0xad, 0xbe, 0xef]);
    assert_ne!(p.memory, before);
    assert!(p.draw(61, 30, &[0xde, 0xad, 0xbe, 0xef]));
    assert_eq!(p.memory, before);
}
