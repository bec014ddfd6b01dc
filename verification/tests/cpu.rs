use chip_8::cpu::{decode, fetch, Address, Cpu, Memory, OpCode, Registers};
use chip_8::Error;

#[test]
fn new_masks_value_to_12_bits() {
    assert_eq!(Address::new(0x200).value(), 0x200);
    assert_eq!(Address::new(0x1000).value(), 0x000);
    assert_eq!(Address::new(0xf000).value(), 0x000);
    assert_eq!(Address::new(0xffff).value(), 0xfff);
}

#[test]
fn wrapping_add_wraps_at_max() {
    assert_eq!(Address::new(0xfff).wrapping_add(1).value(), 0x000);
}

#[test]
fn wrapping_add_continue_after_wrap() {
    assert_eq!(Address::new(0xfff).wrapping_add(2).value(), 0x001);
}

#[test]
fn wrapping_add_large_offsets() {
    assert_eq!(Address::new(0x001).wrapping_add(0xfff).value(), 0x000);
    assert_eq!(Address::new(0x002).wrapping_add(0xfff).value(), 0x001);
    assert_eq!(Address::new(0xfff).wrapping_add(0xfff).value(), 0xffe);
}

#[test]
fn wrapping_sub_at_min() {
    assert_eq!(Address::new(0x0).wrapping_sub(1).value(), 0xfff);
}

#[test]
fn wrapping_sub_after_wrap() {
    assert_eq!(Address::new(0x0).wrapping_sub(2).value(), 0xffe);
}

#[test]
fn wrapping_sub_larg_offset() {
    assert_eq!(Address::new(0xfff).wrapping_sub(0xfff).value(), 0x0);
    assert_eq!(Address::new(0xffe).wrapping_sub(0xfff).value(), 0xfff);
    assert_eq!(Address::new(0x0).wrapping_sub(0xfff).value(), 0x1);
}


#[test]
fn read_right_slot() {
    let rs = Registers(core::array::from_fn(|i| i as u8));

    for i in 0..16 {
        assert_eq!(rs.get(i), i);
    }
}

#[test]
fn read_right_mut_slot() {
    let mut rs = Registers(core::array::from_fn(|i| i as u8));

    for i in 0..16 {
        rs.set(i, rs.get(i) - i);
    }

    assert_eq!(rs.0, [0; 16]);
}

#[test]
#[should_panic(expected = "index out of bounds")]
fn out_of_bounds() {
    let rs = Registers([0; 16]);
    let _ = rs.get(42);
}

#[test]
#[should_panic(expected = "index out of bounds")]
fn out_of_bounds_mut() {
    let mut rs = Registers([0; 16]);

    rs.set(42, 1);
}

pub struct FakeMemory(pub Vec<u8>);

impl Memory for FakeMemory {
    fn byte(&self, address: u16) -> u8 {
        self.0[address as usize]
    }

    fn read(&self, address: Address) -> u8 {
        self.0[address.value() as usize]
    }

    fn write(&mut self, address: Address, value: u8) {
        self.0[address.value() as usize] = value;
    }
}

#[test]
fn fetch_opcode() {
    let memory = FakeMemory(vec![0xde, 0xad, 0xbe, 0xef]);

    assert_eq!(fetch(&memory, Address::new(0)), 0xdead);
    assert_eq!(fetch(&memory, Address::new(2)), 0xbeef);
}

struct MockMemory([u8; 8]);

impl Memory for MockMemory {
    fn byte(&self, address: u16) -> u8 {
        self.0[address as usize]
    }

    fn read(&self, address: Address) -> u8 {
        self.0[address.value() as usize]
    }

    fn write(&mut self, address: Address, value: u8) {
        self.0[address.value() as usize] = value;
    }
}

#[test]
fn push_pop_stack() {
    let mut cpu = Cpu {
        pc: Address::new(0x0),
        sp: Address::new(0x7),
        i: Address::new(0),
        vs: Registers([0; 16]),
        dt: 0,
        st: 0,
    };
    let mut memory = MockMemory([0; 8]);

    let expected = [0, 0, 0, 0, 0x23, 0x1, 0xbc, 0xa];

    cpu.push(&mut memory, Address::new(0xabc));
    assert_eq!(cpu.sp, Address::new(5));
    cpu.push(&mut memory, Address::new(0x123));
    assert_eq!(cpu.sp, Address::new(3));

    assert_eq!(memory.0, expected);

    let expected = [0, 0, 0, 0, 0x54, 0x6, 0xbc, 0xa];

    assert_eq!(cpu.pop(&memory), Address::new(0x123));
    assert_eq!(cpu.sp, Address::new(5));

    cpu.push(&mut memory, Address::new(0x654));
    assert_eq!(memory.0, expected);
    assert_eq!(cpu.sp, Address::new(3));

    assert_eq!(cpu.pop(&memory), Address::new(0x654));
    assert_eq!(cpu.sp, Address::new(5));
    assert_eq!(cpu.pop(&memory), Address::new(0xabc));
    assert_eq!(cpu.sp, Address::new(7));
}

#[test]
fn decode_unknown_opcode() {
    assert_eq!(decode(0x9999), Err(Error::UnknownOpCode(0x9999)));
    assert_eq!(decode(0x0fff), Err(Error::UnknownOpCode(0x0fff)));
}

#[test]
fn decode_clear() {
    assert_eq!(decode(0x00e0), Ok(OpCode::Clear));
}

#[test]
fn decode_jump() {
    assert_eq!(decode(0x1123), Ok(OpCode::Jump(Address::new(0x123))));
    assert_eq!(decode(0x1fed), Ok(OpCode::Jump(Address::new(0xfed))));
}

#[test]
fn decode_call() {
    assert_eq!(decode(0x2123), Ok(OpCode::Call(Address::new(0x123))));
    assert_eq!(decode(0x2fed), Ok(OpCode::Call(Address::new(0xfed))));
}
#[test]
fn decode_skip_equal() {
    assert_eq!(decode(0x3123), Ok(OpCode::SkipEqual(0x1, 0x23)));
    assert_eq!(decode(0x3fed), Ok(OpCode::SkipEqual(0xf, 0xed)));
}

#[test]
fn decode_skip_not_equal() {
    assert_eq!(decode(0x4123), Ok(OpCode::SkipNotEqual(0x1, 0x23)));
    assert_eq!(decode(0x4fed), Ok(OpCode::SkipNotEqual(0xf, 0xed)));
}

#[test]
fn decode_load() {
    assert_eq!(decode(0x6123), Ok(OpCode::Load(0x1, 0x23)));
    assert_eq!(decode(0x6fed), Ok(OpCode::Load(0xf, 0xed)));
}

#[test]
fn decode_inc() {
    assert_eq!(decode(0x7123), Ok(OpCode::Inc(0x1, 0x23)));
    assert_eq!(decode(0x7fed), Ok(OpCode::Inc(0xf, 0xed)));
}

#[test]
fn decode_skip_registers_not_equal() {
    assert_eq!(decode(0x9120), Ok(OpCode::SkipRegistersNotEqual(0x1, 0x2)));
    assert_eq!(decode(0x9fe0), Ok(OpCode::SkipRegistersNotEqual(0xf, 0xe)));
}

#[test]
fn decode_set() {
    assert_eq!(decode(0x8120), Ok(OpCode::Assign(0x1, 0x2)));
    assert_eq!(decode(0x8fe0), Ok(OpCode::Assign(0xf, 0xe)));
}

#[test]
fn decode_or() {
    assert_eq!(decode(0x8121), Ok(OpCode::Or(0x1, 0x2)));
    assert_eq!(decode(0x8fe1), Ok(OpCode::Or(0xf, 0xe)));
}

#[test]
fn decode_and() {
    assert_eq!(decode(0x8122), Ok(OpCode::And(0x1, 0x2)));
    assert_eq!(decode(0x8fe2), Ok(OpCode::And(0xf, 0xe)));
}

#[test]
fn decode_xor() {
    assert_eq!(decode(0x8123), Ok(OpCode::Xor(0x1, 0x2)));
    assert_eq!(decode(0x8fe3), Ok(OpCode::Xor(0xf, 0xe)));
}

#[test]
fn decode_add() {
    assert_eq!(decode(0x8124), Ok(OpCode::Add(0x1, 0x2)));
    assert_eq!(decode(0x8fe4), Ok(OpCode::Add(0xf, 0xe)));
}

#[test]
fn decode_sub() {
    assert_eq!(decode(0x8125), Ok(OpCode::Sub(0x1, 0x2)));
    assert_eq!(decode(0x8fe5), Ok(OpCode::Sub(0xf, 0xe)));
}

#[test]
fn decode_rshift() {
    assert_eq!(decode(0x8126), Ok(OpCode::RShift(0x1, 0x2)));
    assert_eq!(decode(0x8fe6), Ok(OpCode::RShift(0xf, 0xe)));
}

#[test]
fn decode_inv_sub() {
    assert_eq!(decode(0x8127), Ok(OpCode::InvSub(0x1, 0x2)));
    assert_eq!(decode(0x8fe7), Ok(OpCode::InvSub(0xf, 0xe)));
}

#[test]
fn decode_lshift() {
    assert_eq!(decode(0x812e), Ok(OpCode::LShift(0x1, 0x2)));
    assert_eq!(decode(0x8fee), Ok(OpCode::LShift(0xf, 0xe)));
}

#[test]
fn decode_load_index() {
    assert_eq!(decode(0xa123), Ok(OpCode::LoadIndex(Address::new(0x123))));
    assert_eq!(decode(0xafed), Ok(OpCode::LoadIndex(Address::new(0xfed))));
}

#[test]
fn decode_flow() {
    assert_eq!(decode(0xb123), Ok(OpCode::Flow(Address::new(0x123))));
    assert_eq!(decode(0xbfed), Ok(OpCode::Flow(Address::new(0xfed))));
}

#[test]
fn decode_draw() {
    assert_eq!(decode(0xd123), Ok(OpCode::Draw(0x1, 0x2, 0x3)));
    assert_eq!(decode(0xdfed), Ok(OpCode::Draw(0xf, 0xe, 0xd)));
}

#[test]
fn decode_is_key() {
    assert_eq!(decode(0xe19e), Ok(OpCode::IsKey(0x1)));
    assert_eq!(decode(0xef9e), Ok(OpCode::IsKey(0xf)));
}

#[test]
fn decode_is_not_key() {
    assert_eq!(decode(0xe1a1), Ok(OpCode::IsNotKey(0x1)));
    assert_eq!(decode(0xefa1), Ok(OpCode::IsNotKey(0xf)));
}

#[test]
fn decode_set_delay() {
    assert_eq!(decode(0xf107), Ok(OpCode::SetDelay(0x1)));
    assert_eq!(decode(0xff07), Ok(OpCode::SetDelay(0xf)));
}

#[test]
fn decode_wait_key() {
    assert_eq!(decode(0xf10a), Ok(OpCode::WaitKey(0x1)));
    assert_eq!(decode(0xff0a), Ok(OpCode::WaitKey(0xf)));
}

#[test]
fn decode_delay() {
    assert_eq!(decode(0xf115), Ok(OpCode::Delay(0x1)));
    assert_eq!(decode(0xff15), Ok(OpCode::Delay(0xf)));
}

#[test]
fn decode_sound() {
    assert_eq!(decode(0xf118), Ok(OpCode::Sound(0x1)));
    assert_eq!(decode(0xff18), Ok(OpCode::Sound(0xf)));
}

#[test]
fn decode_inc_index() {
    assert_eq!(decode(0xf31e), Ok(OpCode::IncIndex(0x3)));
    assert_eq!(decode(0xf51e), Ok(OpCode::IncIndex(0x5)));
}

#[test]
fn decode_bcd() {
    assert_eq!(decode(0xf333), Ok(OpCode::Bcd(0x3)));
    assert_eq!(decode(0xf533), Ok(OpCode::Bcd(0x5)));
}

#[test]
fn decode_write() {
    assert_eq!(decode(0xf355), Ok(OpCode::Write(0x3)));
    assert_eq!(decode(0xf555), Ok(OpCode::Write(0x5)));
}

#[test]
fn decode_read() {
    assert_eq!(decode(0xf365), Ok(OpCode::Read(0x3)));
    assert_eq!(decode(0xf565), Ok(OpCode::Read(0x5)));
}
