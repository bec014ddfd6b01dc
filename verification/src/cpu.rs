use vstd::prelude::*;

use crate::Error;

verus! {

/// A 12-bit address into the interpreter's memory.
#[derive(Clone, Copy, Debug, PartialEq, Eq, Structural)]
pub struct Address(u16);

impl Address {
    #[verifier::type_invariant]
    spec fn fits(self) -> bool {
        self.0 < 0x1000
    }

    /// The address as a number in `0..0x1000`.
    pub closed spec fn view(self) -> u16 {
        self.0
    }

    /// The address made of the low twelve bits of `value`.
    pub closed spec fn from_value(value: u16) -> Address {
        Address(value % 0x1000)
    }

    /// The address made of `value` is `value` modulo the address space.
    pub broadcast proof fn lemma_from_value(value: u16)
        ensures
            #[trigger] Address::from_value(value)@ == value % 0x1000,
    {
    }

    /// Addresses with the same number are the same address.
    pub proof fn lemma_view_injective(a: Address, b: Address)
        requires
            a@ == b@,
        ensures
            a == b,
    {
    }

    /// Keeps the low twelve bits of `value`.
    pub fn new(value: u16) -> (r: Address)
        ensures
            r == Address::from_value(value),
            r@ == value % 0x1000,
    {
        proof {
            assert(value & 0xfff == value % 0x1000 && value & 0xfff < 0x1000) by (bit_vector);
        }
        Address(value & 0xfff)
    }

    /// The address as a number.
    pub fn value(self) -> (r: u16)
        ensures
            r == self@,
            r < 0x1000,
    {
        proof {
            use_type_invariant(&self);
        }
        self.0
    }

    /// The address `offset` further on, wrapping around the 12-bit space.
    pub fn wrapping_add(self, offset: u16) -> (r: Address)
        ensures
            r@ == wrap(self@ + offset),
    {
        let v = self.0.wrapping_add(offset);
        Address::new(v)
    }

    /// The address `offset` back, wrapping around the 12-bit space.
    pub fn wrapping_sub(self, offset: u16) -> (r: Address)
        ensures
            r@ == wrap(self@ - offset),
    {
        let v = self.0.wrapping_sub(offset);
        Address::new(v)
    }
}

/// The sixteen general purpose registers `V0` to `VF`.
pub struct Registers(pub [u8; 16]);

impl Registers {
    /// The contents of the registers, `V0` first.
    pub open spec fn view(&self) -> Seq<u8> {
        self.0@
    }

    /// The value of register `V{index}`.
    pub fn get(&self, index: u8) -> (r: u8)
        requires
            index < 16,
        ensures
            r == self@[index as int],
    {
        self.0[index as usize]
    }

    /// Stores `value` in register `V{index}`.
    pub fn set(&mut self, index: u8, value: u8)
        requires
            index < 16,
        ensures
            final(self)@ == old(self)@.update(index as int, value),
    {
        self.0[index as usize] = value;
    }
}

/// Byte-addressed memory seen by the interpreter.
pub trait Memory {
    /// The byte that a read at `address` gives back.
    spec fn byte(&self, address: u16) -> u8;

    fn read(&self, address: Address) -> (r: u8)
        ensures
            r == self.byte(address@),
    ;

    fn write(&mut self, address: Address, value: u8)
        ensures
            forall|a: u16|
                #[trigger] final(self).byte(a) == if a == address@ {
                    value
                } else {
                    old(self).byte(a)
                },
    ;
}

/// The monochrome screen.
pub trait Display {
    /// `after` is this screen once cleared.
    spec fn cleared(&self, after: &Self) -> bool;

    /// `after` is this screen with `sprite` drawn at (`x`, `y`).
    spec fn drawn(&self, x: u8, y: u8, sprite: Seq<u8>, after: &Self) -> bool;

    /// Drawing `sprite` at (`x`, `y`) switches off a pixel that was on.
    spec fn collides(&self, x: u8, y: u8, sprite: Seq<u8>) -> bool;

    fn clear(&mut self)
        ensures
            old(self).cleared(final(self)),
    ;

    fn draw(&mut self, x: u8, y: u8, sprite: &[u8]) -> (r: bool)
        ensures
            r == old(self).collides(x, y, sprite@),
            old(self).drawn(x, y, sprite@, final(self)),
    ;
}

/// The hexadecimal keypad.
pub trait Keypad {
    /// Key `key` is held down.
    spec fn is_pressed(&self, key: u8) -> bool;

    /// What a wait for a key gives back now.
    spec fn awaited(&self) -> Option<u8>;

    fn key_pressed(&self, key: u8) -> (r: bool)
        ensures
            r == self.is_pressed(key),
    ;

    fn wait_key(&self) -> (r: Option<u8>)
        ensures
            r == self.awaited(),
    ;
}

/// A decoded instruction. Register operands are numbers of registers,
/// byte operands are immediate values.
#[derive(Debug, PartialEq, Eq, Structural)]
pub enum OpCode {
    Clear,
    Return,
    Jump(Address),
    Call(Address),
    SkipEqual(u8, u8),
    SkipNotEqual(u8, u8),
    SkipRegistersEqual(u8, u8),
    Load(u8, u8),
    Inc(u8, u8),
    Assign(u8, u8),
    Or(u8, u8),
    And(u8, u8),
    Xor(u8, u8),
    Add(u8, u8),
    Sub(u8, u8),
    RShift(u8, u8),
    InvSub(u8, u8),
    LShift(u8, u8),
    SkipRegistersNotEqual(u8, u8),
    LoadIndex(Address),
    Flow(Address),
    Draw(u8, u8, u8),
    IsKey(u8),
    IsNotKey(u8),
    SetDelay(u8),
    WaitKey(u8),
    Delay(u8),
    Sound(u8),
    IncIndex(u8),
    Bcd(u8),
    Write(u8),
    Read(u8),
}

/// The `k`-th hexadecimal digit of `opcode`, counting from the most significant.
pub open spec fn digit(opcode: u16, k: int) -> u8 {
    if k == 0 {
        (opcode / 0x1000) as u8
    } else if k == 1 {
        ((opcode / 0x100) % 0x10) as u8
    } else if k == 2 {
        ((opcode / 0x10) % 0x10) as u8
    } else {
        (opcode % 0x10) as u8
    }
}

/// The instruction that `opcode` encodes, or the error for an unknown encoding.
pub open spec fn decoded(opcode: u16) -> Result<OpCode, Error> {
    let kind = digit(opcode, 0);
    let x = digit(opcode, 1);
    let y = digit(opcode, 2);
    let n = digit(opcode, 3);
    let nn = (opcode % 0x100) as u8;
    let nnn = Address::from_value(opcode % 0x1000);
    if opcode == 0x00e0 {
        Ok(OpCode::Clear)
    } else if opcode == 0x00ee {
        Ok(OpCode::Return)
    } else if kind == 0x1 {
        Ok(OpCode::Jump(nnn))
    } else if kind == 0x2 {
        Ok(OpCode::Call(nnn))
    } else if kind == 0x3 {
        Ok(OpCode::SkipEqual(x, nn))
    } else if kind == 0x4 {
        Ok(OpCode::SkipNotEqual(x, nn))
    } else if kind == 0x5 && n == 0 {
        Ok(OpCode::SkipRegistersEqual(x, y))
    } else if kind == 0x6 {
        Ok(OpCode::Load(x, nn))
    } else if kind == 0x7 {
        Ok(OpCode::Inc(x, nn))
    } else if kind == 0x8 && n == 0x0 {
        Ok(OpCode::Assign(x, y))
    } else if kind == 0x8 && n == 0x1 {
        Ok(OpCode::Or(x, y))
    } else if kind == 0x8 && n == 0x2 {
        Ok(OpCode::And(x, y))
    } else if kind == 0x8 && n == 0x3 {
        Ok(OpCode::Xor(x, y))
    } else if kind == 0x8 && n == 0x4 {
        Ok(OpCode::Add(x, y))
    } else if kind == 0x8 && n == 0x5 {
        Ok(OpCode::Sub(x, y))
    } else if kind == 0x8 && n == 0x6 {
        Ok(OpCode::RShift(x, y))
    } else if kind == 0x8 && n == 0x7 {
        Ok(OpCode::InvSub(x, y))
    } else if kind == 0x8 && n == 0xe {
        Ok(OpCode::LShift(x, y))
    } else if kind == 0x9 && n == 0 {
        Ok(OpCode::SkipRegistersNotEqual(x, y))
    } else if kind == 0xa {
        Ok(OpCode::LoadIndex(nnn))
    } else if kind == 0xb {
        Ok(OpCode::Flow(nnn))
    } else if kind == 0xd {
        Ok(OpCode::Draw(x, y, n))
    } else if kind == 0xe && nn == 0x9e {
        Ok(OpCode::IsKey(x))
    } else if kind == 0xe && nn == 0xa1 {
        Ok(OpCode::IsNotKey(x))
    } else if kind == 0xf && nn == 0x07 {
        Ok(OpCode::SetDelay(x))
    } else if kind == 0xf && nn == 0x0a {
        Ok(OpCode::WaitKey(x))
    } else if kind == 0xf && nn == 0x15 {
        Ok(OpCode::Delay(x))
    } else if kind == 0xf && nn == 0x18 {
        Ok(OpCode::Sound(x))
    } else if kind == 0xf && nn == 0x1e {
        Ok(OpCode::IncIndex(x))
    } else if kind == 0xf && nn == 0x33 {
        Ok(OpCode::Bcd(x))
    } else if kind == 0xf && nn == 0x55 {
        Ok(OpCode::Write(x))
    } else if kind == 0xf && nn == 0x65 {
        Ok(OpCode::Read(x))
    } else {
        Err(Error::UnknownOpCode(opcode))
    }
}

/// Register operands and row counts of a decoded instruction are hexadecimal digits.
pub open spec fn operands_fit(op: OpCode) -> bool {
    match op {
        OpCode::SkipEqual(x, _) | OpCode::SkipNotEqual(x, _) | OpCode::Load(x, _) | OpCode::Inc(x, _)
        | OpCode::IsKey(x) | OpCode::IsNotKey(x) | OpCode::SetDelay(x) | OpCode::WaitKey(x)
        | OpCode::Delay(x) | OpCode::Sound(x) | OpCode::IncIndex(x) | OpCode::Bcd(x)
        | OpCode::Write(x) | OpCode::Read(x) => x < 16,
        OpCode::SkipRegistersEqual(x, y) | OpCode::Assign(x, y) | OpCode::Or(x, y) | OpCode::And(x, y)
        | OpCode::Xor(x, y) | OpCode::Add(x, y) | OpCode::Sub(x, y) | OpCode::RShift(x, y)
        | OpCode::InvSub(x, y) | OpCode::LShift(x, y) | OpCode::SkipRegistersNotEqual(x, y) => x < 16 && y < 16,
        OpCode::Draw(x, y, n) => x < 16 && y < 16 && n < 16,
        _ => true,
    }
}

/// What an address built from a number is, for every caller.
pub broadcast group group_address {
    Address::lemma_from_value,
}

/// An instruction word is rejected exactly with the error naming it, and what
/// it decodes to has its operands in range.
pub proof fn law_decoded_error(opcode: u16)
    ensures
        decoded(opcode) is Err ==> decoded(opcode) == Err::<OpCode, Error>(Error::UnknownOpCode(opcode)),
        decoded(opcode) matches Ok(op) ==> operands_fit(op),
{
}

/// Decodes a 16-bit instruction word.
pub fn decode(opcode: u16) -> (r: Result<OpCode, Error>)
    ensures
        r == decoded(opcode),
        r matches Ok(op) ==> operands_fit(op),
{
    let nibbles = (
        (opcode >> 12) as u8,
        ((opcode >> 8) & 0xf) as u8,
        ((opcode >> 4) & 0xf) as u8,
        (opcode & 0xf) as u8,
    );
    let nn = (opcode & 0xff) as u8;
    let nnn = opcode & 0xfff;
    proof {
        assert(opcode >> 12 == opcode / 0x1000 && (opcode >> 8) & 0xf == (opcode / 0x100) % 0x10
            && (opcode >> 4) & 0xf == (opcode / 0x10) % 0x10 && opcode & 0xf == opcode % 0x10
            && opcode & 0xff == opcode % 0x100 && opcode & 0xfff == opcode % 0x1000) by (bit_vector);
    }
    match nibbles {
        (0x0, 0x0, 0xe, 0x0) => Ok(OpCode::Clear),
        (0x0, 0x0, 0xe, 0xe) => Ok(OpCode::Return),
        (0x1, _, _, _) => Ok(OpCode::Jump(Address::new(nnn))),
        (0x2, _, _, _) => Ok(OpCode::Call(Address::new(nnn))),
        (0x3, x, _, _) => Ok(OpCode::SkipEqual(x, nn)),
        (0x4, x, _, _) => Ok(OpCode::SkipNotEqual(x, nn)),
        (0x5, x, y, 0) => Ok(OpCode::SkipRegistersEqual(x, y)),
        (0x6, x, _, _) => Ok(OpCode::Load(x, nn)),
        (0x7, x, _, _) => Ok(OpCode::Inc(x, nn)),
        (0x8, x, y, 0) => Ok(OpCode::Assign(x, y)),
        (0x8, x, y, 1) => Ok(OpCode::Or(x, y)),
        (0x8, x, y, 2) => Ok(OpCode::And(x, y)),
        (0x8, x, y, 3) => Ok(OpCode::Xor(x, y)),
        (0x8, x, y, 4) => Ok(OpCode::Add(x, y)),
        (0x8, x, y, 5) => Ok(OpCode::Sub(x, y)),
        (0x8, x, y, 6) => Ok(OpCode::RShift(x, y)),
        (0x8, x, y, 7) => Ok(OpCode::InvSub(x, y)),
        (0x8, x, y, 0xe) => Ok(OpCode::LShift(x, y)),
        (0x9, x, y, 0) => Ok(OpCode::SkipRegistersNotEqual(x, y)),
        (0xa, _, _, _) => Ok(OpCode::LoadIndex(Address::new(nnn))),
        (0xb, _, _, _) => Ok(OpCode::Flow(Address::new(nnn))),
        (0xd, x, y, n) => Ok(OpCode::Draw(x, y, n)),
        (0xe, x, 9, 0xe) => Ok(OpCode::IsKey(x)),
        (0xe, x, 0xa, 1) => Ok(OpCode::IsNotKey(x)),
        (0xf, x, 0, 7) => Ok(OpCode::SetDelay(x)),
        (0xf, x, 0, 0xa) => Ok(OpCode::WaitKey(x)),
        (0xf, x, 1, 5) => Ok(OpCode::Delay(x)),
        (0xf, x, 1, 8) => Ok(OpCode::Sound(x)),
        (0xf, x, 1, 0xe) => Ok(OpCode::IncIndex(x)),
        (0xf, x, 3, 3) => Ok(OpCode::Bcd(x)),
        (0xf, x, 5, 5) => Ok(OpCode::Write(x)),
        (0xf, x, 6, 5) => Ok(OpCode::Read(x)),
        _ => Err(Error::UnknownOpCode(opcode)),
    }
}

/// The address `a` taken around the 12-bit address space.
pub open spec fn wrap(a: int) -> u16 {
    (a % 0x1000) as u16
}

/// The instruction word at `pc`: the byte there, then the byte after it.
pub open spec fn word_at<M: Memory>(memory: &M, pc: u16) -> u16 {
    (memory.byte(pc) as int * 0x100 + memory.byte(wrap(pc + 1)) as int) as u16
}

/// Reads the big-endian instruction word at `pc`.
pub fn fetch<M: Memory>(memory: &M, pc: Address) -> (r: u16)
    ensures
        r == word_at(memory, pc@),
{
    let high = memory.read(pc);
    let low = memory.read(pc.wrapping_add(1));
    proof {
        assert((high as u16) << 8 | low as u16 == high as int * 0x100 + low as int) by (bit_vector);
    }
    (high as u16) << 8 | low as u16
}

/// Where the program counter starts.
pub const START_PC: u16 = 0x200;

/// Where the call stack starts; it grows downwards.
pub const STACK_TOP: u16 = 0xeff;

/// The state of the interpreter as numbers.
pub struct CpuState {
    pub pc: u16,
    pub sp: u16,
    pub i: u16,
    pub vs: Seq<u8>,
    pub dt: u8,
    pub st: u8,
}

/// The interpreter's registers and timers.
pub struct Cpu {
    /// Program counter.
    pub pc: Address,
    /// Stack pointer: the next free byte of the call stack.
    pub sp: Address,
    /// Index register.
    pub i: Address,
    /// General purpose registers.
    pub vs: Registers,
    /// Delay timer.
    pub dt: u8,
    /// Sound timer.
    pub st: u8,
}

impl Cpu {
    pub open spec fn view(&self) -> CpuState {
        CpuState { pc: self.pc@, sp: self.sp@, i: self.i@, vs: self.vs@, dt: self.dt, st: self.st }
    }
}

/// The state after pushing `address` on the call stack.
pub open spec fn after_push(c: CpuState) -> CpuState {
    CpuState { sp: wrap(c.sp - 2), ..c }
}

/// The bytes that pushing `address` stores: its high byte at the stack pointer,
/// its low byte just below.
pub open spec fn push_stores(c: CpuState, address: u16) -> Map<u16, u8> {
    map![c.sp => (address / 0x100) as u8, wrap(c.sp - 1) => (address % 0x100) as u8]
}

/// The address that a pop reads from the call stack.
pub open spec fn popped<M: Memory>(c: CpuState, memory: &M) -> u16 {
    wrap(memory.byte(wrap(c.sp + 2)) as int * 0x100 + memory.byte(wrap(c.sp + 1)) as int)
}

/// `after` holds what `before` holds, but for the bytes in `stores`.
pub open spec fn stored<M: Memory>(before: &M, stores: Map<u16, u8>, after: &M) -> bool {
    forall|a: u16|
        #[trigger] after.byte(a) == if stores.contains_key(a) {
            stores[a]
        } else {
            before.byte(a)
        }
}

impl Cpu {
    /// The state of a reset interpreter: registers and timers at zero, the
    /// program counter at [`START_PC`], the stack pointer at [`STACK_TOP`].
    pub open spec fn new_state() -> CpuState {
        CpuState { pc: START_PC, sp: STACK_TOP, i: 0, vs: Seq::new(16, |k: int| 0u8), dt: 0, st: 0 }
    }

    /// A reset interpreter.
    pub fn new() -> (r: Cpu)
        ensures
            r@ == Cpu::new_state(),
    {
        let r = Cpu {
            pc: Address::new(START_PC),
            sp: Address::new(STACK_TOP),
            i: Address::new(0),
            vs: Registers([0; 16]),
            dt: 0,
            st: 0,
        };
        assert(r.vs@ =~= Seq::new(16, |k: int| 0u8));
        r
    }

    /// Pushes `address` on the call stack, high byte first.
    pub fn push<M: Memory>(&mut self, memory: &mut M, address: Address)
        ensures
            final(self)@ == after_push(old(self)@),
            stored(old(memory), push_stores(old(self)@, address@), final(memory)),
    {
        let v = address.value();
        let (high, low) = ((v >> 8) as u8, (v & 0xff) as u8);
        proof {
            assert(v >> 8 == v / 0x100 && v & 0xff == v % 0x100) by (bit_vector);
        }
        memory.write(self.sp, high);
        self.sp = self.sp.wrapping_sub(1);

        memory.write(self.sp, low);
        self.sp = self.sp.wrapping_sub(1);
    }

    /// Pops an address from the call stack, low byte first.
    pub fn pop<M: Memory>(&mut self, memory: &M) -> (r: Address)
        ensures
            r@ == popped(old(self)@, memory),
            final(self)@ == (CpuState { sp: wrap(old(self)@.sp + 2), ..old(self)@ }),
    {
        self.sp = self.sp.wrapping_add(1);
        let low = memory.read(self.sp);

        self.sp = self.sp.wrapping_add(1);
        let high = memory.read(self.sp);
        proof {
            assert((high as u16) << 8 | low as u16 == high as int * 0x100 + low as int) by (bit_vector);
        }
        Address::new((high as u16) << 8 | low as u16)
    }

    /// Counts both timers down by one, stopping at zero.
    pub fn tick_timer(&mut self)
        ensures
            final(self)@ == timers_ticked(old(self)@),
    {
        if self.dt > 0 {
            self.dt -= 1;
        }
        if self.st > 0 {
            self.st -= 1;
        }
    }
}

/// The state with register `V{x}` set to `value`.
pub open spec fn with_reg(c: CpuState, x: u8, value: u8) -> CpuState {
    CpuState { vs: c.vs.update(x as int, value), ..c }
}

/// The state with register `V{x}` set to `value` and then `VF` set to `flag`.
pub open spec fn with_flag(c: CpuState, x: u8, value: u8, flag: u8) -> CpuState {
    CpuState { vs: c.vs.update(x as int, value).update(15, flag), ..c }
}

/// The state with the next instruction skipped.
pub open spec fn skipped(c: CpuState) -> CpuState {
    CpuState { pc: wrap(c.pc + 2), ..c }
}

/// The `n` sprite rows that a draw reads, from the index register on.
pub open spec fn sprite_at<M: Memory>(memory: &M, i: u16, n: u8) -> Seq<u8> {
    Seq::new(n as nat, |r: int| memory.byte(wrap(i + r)))
}

/// The registers and timers after `op` runs on `c` with peripherals `p`.
pub open spec fn next_state<P: Memory + Display + Keypad>(c: CpuState, p: &P, op: OpCode) -> CpuState {
    let v = c.vs;
    match op {
        OpCode::Clear => c,
        OpCode::Return => CpuState { pc: popped(c, p), sp: wrap(c.sp + 2), ..c },
        OpCode::Jump(a) => CpuState { pc: a@, ..c },
        OpCode::Call(a) => CpuState { pc: a@, ..after_push(c) },
        OpCode::SkipEqual(x, value) => if v[x as int] == value { skipped(c) } else { c },
        OpCode::SkipNotEqual(x, value) => if v[x as int] != value { skipped(c) } else { c },
        OpCode::SkipRegistersEqual(x, y) => if v[x as int] == v[y as int] { skipped(c) } else { c },
        OpCode::Load(x, value) => with_reg(c, x, value),
        OpCode::Inc(x, value) => with_reg(c, x, ((v[x as int] + value) % 0x100) as u8),
        OpCode::Assign(x, y) => with_reg(c, x, v[y as int]),
        OpCode::Or(x, y) => with_flag(c, x, v[x as int] | v[y as int], 0),
        OpCode::And(x, y) => with_flag(c, x, v[x as int] & v[y as int], 0),
        OpCode::Xor(x, y) => with_flag(c, x, v[x as int] ^ v[y as int], 0),
        OpCode::Add(x, y) => with_flag(
            c,
            x,
            ((v[x as int] + v[y as int]) % 0x100) as u8,
            if v[x as int] + v[y as int] > 0xff { 1 } else { 0 },
        ),
        OpCode::Sub(x, y) => with_flag(
            c,
            x,
            ((v[x as int] - v[y as int]) % 0x100) as u8,
            if v[x as int] >= v[y as int] { 1 } else { 0 },
        ),
        OpCode::RShift(x, y) => with_flag(c, x, v[y as int] / 2, v[y as int] % 2),
        OpCode::InvSub(x, y) => with_flag(
            c,
            x,
            ((v[y as int] - v[x as int]) % 0x100) as u8,
            if v[y as int] >= v[x as int] { 1 } else { 0 },
        ),
        OpCode::LShift(x, y) => with_flag(c, x, ((v[y as int] * 2) % 0x100) as u8, v[y as int] / 0x80),
        OpCode::SkipRegistersNotEqual(x, y) => if v[x as int] != v[y as int] { skipped(c) } else { c },
        OpCode::LoadIndex(a) => CpuState { i: a@, ..c },
        OpCode::Flow(a) => CpuState { pc: wrap(a@ + v[0]), ..c },
        OpCode::Draw(x, y, n) => with_reg(
            c,
            15,
            if p.collides(v[x as int], v[y as int], sprite_at(p, c.i, n)) { 1 } else { 0 },
        ),
        OpCode::IsKey(x) => if p.is_pressed(v[x as int] % 0x10) { skipped(c) } else { c },
        OpCode::IsNotKey(x) => if !p.is_pressed(v[x as int] % 0x10) { skipped(c) } else { c },
        OpCode::SetDelay(x) => with_reg(c, x, c.dt),
        OpCode::WaitKey(x) => match p.awaited() {
            Some(k) => with_reg(c, x, k),
            None => CpuState { pc: wrap(c.pc - 2), ..c },
        },
        OpCode::Delay(x) => CpuState { dt: v[x as int], ..c },
        OpCode::Sound(x) => CpuState { st: v[x as int], ..c },
        OpCode::IncIndex(x) => CpuState { i: wrap(c.i + v[x as int]), ..c },
        OpCode::Bcd(x) => c,
        OpCode::Write(x) => CpuState { i: wrap(c.i + x + 1), ..c },
        OpCode::Read(x) => CpuState {
            vs: Seq::new(16, |k: int| if k <= x { p.byte(wrap(c.i + k)) } else { v[k] }),
            i: wrap(c.i + x + 1),
            ..c
        },
    }
}

/// The bytes that storing the first `count` registers from the index register on
/// puts in memory: the address `count` or fewer bytes past the index register
/// receives the register as far from `V0`.
pub open spec fn register_stores(c: CpuState, count: int) -> Map<u16, u8> {
    Map::new(|a: u16| a < 0x1000 && (a - c.i) % 0x1000 < count, |a: u16| c.vs[(a - c.i) % 0x1000])
}

/// The bytes that `op` stores in memory when it runs on `c`.
pub open spec fn stores_of(c: CpuState, op: OpCode) -> Map<u16, u8> {
    match op {
        OpCode::Call(_) => push_stores(c, c.pc),
        OpCode::Bcd(x) => {
            let v = c.vs[x as int];
            map![c.i => v / 100, wrap(c.i + 1) => (v / 10) % 10, wrap(c.i + 2) => v % 10]
        },
        OpCode::Write(x) => register_stores(c, x + 1),
        _ => Map::empty(),
    }
}

/// `after` is what the peripherals `p` become when `op` runs on `c`.
pub open spec fn peripheral_next<P: Memory + Display + Keypad>(
    c: CpuState,
    p: &P,
    op: OpCode,
    after: &P,
) -> bool {
    match op {
        OpCode::Clear => p.cleared(after),
        OpCode::Draw(x, y, n) => p.drawn(c.vs[x as int], c.vs[y as int], sprite_at(p, c.i, n), after),
        OpCode::Call(_) | OpCode::Bcd(_) | OpCode::Write(_) => stored(p, stores_of(c, op), after),
        _ => *after == *p,
    }
}

/// The address `a` lies `k` bytes past `base` exactly when `a` is `base + k`
/// taken around the address space.
proof fn lemma_offset(a: u16, base: u16, k: int)
    requires
        a < 0x1000,
        base < 0x1000,
        0 <= k < 0x1000,
    ensures
        ((a - base) % 0x1000 == k) == (a == wrap(base + k)),
{
    if a >= base {
        assert((a - base) % 0x1000 == a - base);
    } else {
        assert((a - base) % 0x1000 == a - base + 0x1000);
    }
    if base + k < 0x1000 {
        assert(wrap(base + k) == base + k);
    } else {
        assert(wrap(base + k) == base + k - 0x1000);
    }
}

impl Cpu {
    /// `Dxyn`: draws the `n` rows at the index register at (`Vx`, `Vy`), `VF`
    /// telling whether a lit pixel went dark.
    fn draw_sprite<P: Memory + Display + Keypad>(&mut self, peripheral: &mut P, x: u8, y: u8, n: u8)
        requires
            x < 16,
            y < 16,
            n < 16,
        ensures
            final(self)@ == next_state(old(self)@, old(peripheral), OpCode::Draw(x, y, n)),
            peripheral_next(old(self)@, old(peripheral), OpCode::Draw(x, y, n), final(peripheral)),
    {
        let mut sprite = [0u8; 15];
        let mut row: u8 = 0;
        while row < n
            invariant
                row <= n < 16,
                forall|r: int| 0 <= r < row ==> sprite@[r] == peripheral.byte(wrap(self.i@ + r)),
            decreases n - row,
        {
            sprite[row as usize] = peripheral.read(self.i.wrapping_add(row as u16));
            row += 1;
        }
        let rows = vstd::slice::slice_subrange(sprite.as_slice(), 0, n as usize);
        assert(rows@ =~= sprite_at(peripheral, self.i@, n));
        let (vx, vy) = (self.vs.get(x), self.vs.get(y));
        let hit = peripheral.draw(vx, vy, rows);
        self.vs.set(15, if hit { 1 } else { 0 });
    }

    /// `Fx33`: stores the hundreds, tens and units of `Vx` from the index
    /// register on.
    fn store_bcd<P: Memory + Display + Keypad>(&mut self, peripheral: &mut P, x: u8)
        requires
            x < 16,
        ensures
            final(self)@ == next_state(old(self)@, old(peripheral), OpCode::Bcd(x)),
            peripheral_next(old(self)@, old(peripheral), OpCode::Bcd(x), final(peripheral)),
    {
        let v = self.vs.get(x);
        let a = v / 100;
        let b = (v / 10) % 10;
        let c = v % 10;
        let mut destination = self.i;

        peripheral.write(destination, a);
        destination = destination.wrapping_add(1);
        peripheral.write(destination, b);
        destination = destination.wrapping_add(1);
        peripheral.write(destination, c);
    }

    /// `Fx55`: stores `V0` to `Vx` from the index register on, moving the index
    /// register past them.
    fn store_registers<P: Memory + Display + Keypad>(&mut self, peripheral: &mut P, x: u8)
        requires
            x < 16,
        ensures
            final(self)@ == next_state(old(self)@, old(peripheral), OpCode::Write(x)),
            peripheral_next(old(self)@, old(peripheral), OpCode::Write(x), final(peripheral)),
    {
        proof {
            use_type_invariant(&self.i);
        }
        let ghost c0 = self@;
        let mut k: u8 = 0;
        while k <= x
            invariant
                x < 16,
                k <= x + 1,
                c0.i < 0x1000,
                self@ == (CpuState { i: wrap(c0.i + k), ..c0 }),
                stored(old(peripheral), register_stores(c0, k as int), peripheral),
            decreases x + 1 - k,
        {
            let v = self.vs.get(k);
            peripheral.write(self.i, v);
            proof {
                use_type_invariant(&self.i);
                assert forall|a: u16| #[trigger]
                    peripheral.byte(a) == if register_stores(c0, k + 1).contains_key(a) {
                        register_stores(c0, k + 1)[a]
                    } else {
                        old(peripheral).byte(a)
                    } by {
                    if a < 0x1000 {
                        lemma_offset(a, c0.i, k as int);
                    }
                }
            }
            self.i = self.i.wrapping_add(1);
            k += 1;
        }
    }

    /// `Fx65`: loads `V0` to `Vx` from the index register on, moving the index
    /// register past them.
    fn load_registers<P: Memory + Display + Keypad>(&mut self, peripheral: &mut P, x: u8)
        requires
            x < 16,
        ensures
            final(self)@ == next_state(old(self)@, old(peripheral), OpCode::Read(x)),
            peripheral_next(old(self)@, old(peripheral), OpCode::Read(x), final(peripheral)),
    {
        proof {
            use_type_invariant(&self.i);
        }
        let ghost c0 = self@;
        assert(c0.vs =~= Seq::new(16, |j: int| if j < 0 { peripheral.byte(wrap(c0.i + j)) } else { c0.vs[j] }));
        let mut k: u8 = 0;
        while k <= x
            invariant
                x < 16,
                k <= x + 1,
                *peripheral == *old(peripheral),
                self@ == (CpuState {
                    i: wrap(c0.i + k),
                    vs: Seq::new(16, |j: int| if j < k { peripheral.byte(wrap(c0.i + j)) } else { c0.vs[j] }),
                    ..c0
                }),
            decreases x + 1 - k,
        {
            let v = peripheral.read(self.i);
            self.vs.set(k, v);
            self.i = self.i.wrapping_add(1);
            k += 1;
            assert(self.vs@ =~= Seq::new(16, |j: int| if j < k { peripheral.byte(wrap(c0.i + j)) } else { c0.vs[j] }));
        }
        assert(self.vs@ =~= Seq::new(16, |j: int| if j <= x { peripheral.byte(wrap(c0.i + j)) } else { c0.vs[j] }));
    }

    /// Runs one decoded instruction.
    #[verifier::rlimit(60)]
    pub fn execute<P: Memory + Display + Keypad>(&mut self, peripheral: &mut P, opcode: OpCode)
        requires
            operands_fit(opcode),
        ensures
            final(self)@ == next_state(old(self)@, old(peripheral), opcode),
            peripheral_next(old(self)@, old(peripheral), opcode, final(peripheral)),
    {
        match opcode {
            OpCode::Clear => peripheral.clear(),
            OpCode::Return => {
                let address = self.pop(peripheral);
                self.pc = address;
            },
            OpCode::Jump(address) => self.pc = address,
            OpCode::Call(address) => {
                let pc = self.pc;
                self.push(peripheral, pc);
                self.pc = address;
            },
            OpCode::SkipEqual(x, value) => {
                if self.vs.get(x) == value {
                    self.pc = self.pc.wrapping_add(2);
                }
            },
            OpCode::SkipNotEqual(x, value) => {
                if self.vs.get(x) != value {
                    self.pc = self.pc.wrapping_add(2);
                }
            },
            OpCode::SkipRegistersEqual(x, y) => {
                if self.vs.get(x) == self.vs.get(y) {
                    self.pc = self.pc.wrapping_add(2);
                }
            },
            OpCode::Load(x, value) => self.vs.set(x, value),
            OpCode::Inc(x, value) => {
                let v = self.vs.get(x).wrapping_add(value);
                self.vs.set(x, v);
            },
            OpCode::Assign(x, y) => {
                let v = self.vs.get(y);
                self.vs.set(x, v);
            },
            OpCode::Or(x, y) => {
                let v = self.vs.get(x) | self.vs.get(y);
                self.vs.set(x, v);
                self.vs.set(15, 0);
            },
            OpCode::And(x, y) => {
                let v = self.vs.get(x) & self.vs.get(y);
                self.vs.set(x, v);
                self.vs.set(15, 0);
            },
            OpCode::Xor(x, y) => {
                let v = self.vs.get(x) ^ self.vs.get(y);
                self.vs.set(x, v);
                self.vs.set(15, 0);
            },
            OpCode::Add(x, y) => {
                let (a, b) = (self.vs.get(x), self.vs.get(y));
                let carry: u8 = if a as u16 + b as u16 > 0xff { 1 } else { 0 };
                self.vs.set(x, a.wrapping_add(b));
                self.vs.set(15, carry);
            },
            OpCode::Sub(x, y) => {
                let (a, b) = (self.vs.get(x), self.vs.get(y));
                let no_borrow: u8 = if a >= b { 1 } else { 0 };
                self.vs.set(x, a.wrapping_sub(b));
                self.vs.set(15, no_borrow);
            },
            OpCode::RShift(x, y) => {
                let b = self.vs.get(y);
                let lsb = b & 0x1;
                proof {
                    assert(b & 0x1 == b % 2 && b >> 1 == b / 2) by (bit_vector);
                }
                self.vs.set(x, b >> 1);
                self.vs.set(15, lsb);
            },
            OpCode::InvSub(x, y) => {
                let (a, b) = (self.vs.get(x), self.vs.get(y));
                let no_borrow: u8 = if b >= a { 1 } else { 0 };
                self.vs.set(x, b.wrapping_sub(a));
                self.vs.set(15, no_borrow);
            },
            OpCode::LShift(x, y) => {
                let b = self.vs.get(y);
                let msb = b >> 7;
                proof {
                    assert(b >> 7 == b / 0x80 && b << 1 == (b * 2) % 0x100) by (bit_vector);
                }
                self.vs.set(x, b << 1);
                self.vs.set(15, msb);
            },
            OpCode::SkipRegistersNotEqual(x, y) => {
                if self.vs.get(x) != self.vs.get(y) {
                    self.pc = self.pc.wrapping_add(2);
                }
            },
            OpCode::LoadIndex(address) => self.i = address,
            OpCode::Flow(address) => {
                let v0 = self.vs.get(0);
                self.pc = address.wrapping_add(v0 as u16);
            },
            OpCode::Draw(x, y, n) => self.draw_sprite(peripheral, x, y, n),
            OpCode::IsKey(x) => {
                let key = self.vs.get(x) & 0xf;
                proof {
                    assert(forall|v: u8| v & 0xf == v % 0x10) by (bit_vector);
                }
                if peripheral.key_pressed(key) {
                    self.pc = self.pc.wrapping_add(2);
                }
            },
            OpCode::IsNotKey(x) => {
                let key = self.vs.get(x) & 0xf;
                proof {
                    assert(forall|v: u8| v & 0xf == v % 0x10) by (bit_vector);
                }
                if !peripheral.key_pressed(key) {
                    self.pc = self.pc.wrapping_add(2);
                }
            },
            OpCode::SetDelay(x) => {
                let dt = self.dt;
                self.vs.set(x, dt);
            },
            OpCode::WaitKey(x) => {
                if let Some(k) = peripheral.wait_key() {
                    self.vs.set(x, k);
                } else {
                    self.pc = self.pc.wrapping_sub(2);
                }
            },
            OpCode::Delay(x) => self.dt = self.vs.get(x),
            OpCode::Sound(x) => self.st = self.vs.get(x),
            OpCode::IncIndex(x) => {
                let v = self.vs.get(x);
                self.i = self.i.wrapping_add(v as u16);
            },
            OpCode::Bcd(x) => self.store_bcd(peripheral, x),
            OpCode::Write(x) => self.store_registers(peripheral, x),
            OpCode::Read(x) => self.load_registers(peripheral, x),
        }
    }
}

/// One step from `c` and `p` gave `r` and left `c2` and `p2`: the instruction at
/// the program counter ran with the program counter past it, or, when it does
/// not decode, the error came back and nothing changed.
pub open spec fn stepped<P: Memory + Display + Keypad>(
    c: CpuState,
    p: &P,
    r: Result<(), Error>,
    c2: CpuState,
    p2: &P,
) -> bool {
    match decoded(word_at(p, c.pc)) {
        Err(e) => {
            &&& r == Err::<(), Error>(e)
            &&& c2 == c
            &&& *p2 == *p
        },
        Ok(op) => {
            &&& r == Ok::<(), Error>(())
            &&& c2 == next_state(skipped(c), p, op)
            &&& peripheral_next(skipped(c), p, op, p2)
        },
    }
}

/// The state after one timer tick: both timers one lower, stopping at zero.
pub open spec fn timers_ticked(c: CpuState) -> CpuState {
    CpuState {
        dt: if c.dt > 0 { (c.dt - 1) as u8 } else { 0 },
        st: if c.st > 0 { (c.st - 1) as u8 } else { 0 },
        ..c
    }
}

impl Cpu {
    /// Fetches the instruction at the program counter, moves the program counter
    /// past it and runs it. An instruction that does not decode is reported and
    /// changes nothing.
    pub fn step<P: Memory + Display + Keypad>(&mut self, peripheral: &mut P) -> (r: Result<(), Error>)
        ensures
            stepped(old(self)@, old(peripheral), r, final(self)@, final(peripheral)),
    {
        let opcode = fetch(peripheral, self.pc);
        let opcode = decode(opcode)?;

        self.pc = self.pc.wrapping_add(2);

        self.execute(peripheral, opcode);

        Ok(())
    }
}

impl Default for Cpu {
    fn default() -> (r: Self)
        ensures
            r@ == Cpu::new_state(),
    {
        Self::new()
    }
}

/// Going `offset` bytes forward and then `offset` bytes back returns to the
/// same address.
pub proof fn law_wrapping_add_then_sub(a: u16, offset: u16)
    requires
        a < 0x1000,
    ensures
        wrap(wrap(a + offset) - offset) == a,
{
    let s = a + offset;
    assert(wrap(s) == s - (s / 0x1000) * 0x1000);
}

/// A pop right after a push gives back the pushed address and the stack
/// pointer from before the push.
pub proof fn law_pop_after_push<M: Memory>(c: CpuState, address: u16, before: M, after: M)
    requires
        c.sp < 0x1000,
        address < 0x1000,
        stored(&before, push_stores(c, address), &after),
    ensures
        popped(after_push(c), &after) == address,
        wrap(after_push(c).sp + 2) == c.sp,
{
    let sp = after_push(c).sp;
    assert(wrap(sp + 2) == c.sp);
    assert(wrap(sp + 1) == wrap(c.sp - 1));
    assert(wrap(c.sp - 1) != c.sp);
    assert(after.byte(c.sp) == (address / 0x100) as u8);
    assert(after.byte(wrap(c.sp - 1)) == (address % 0x100) as u8);
}

/// A return right after a call puts the interpreter back as it was before the
/// call: same program counter, same stack pointer, same registers.
pub proof fn law_return_after_call<P: Memory + Display + Keypad>(c: CpuState, target: Address, p: P, after: P)
    requires
        c.pc < 0x1000,
        c.sp < 0x1000,
        peripheral_next(c, &p, OpCode::Call(target), &after),
    ensures
        next_state(next_state(c, &p, OpCode::Call(target)), &after, OpCode::Return) == c,
{
    law_pop_after_push(c, c.pc, p, after);
}

/// Interpreters with the same registers and timers are the same interpreter.
pub proof fn lemma_cpu_view_injective(a: Cpu, b: Cpu)
    requires
        a@ == b@,
    ensures
        a == b,
{
    assert(a.vs.0@ =~= b.vs.0@);
    vstd::array::axiom_array_ext_equal(a.vs.0, b.vs.0);
}

/// A step on an instruction `8xy0` copies register `Vy` into `Vx`: the
/// registers after it are those before it with `Vx` replaced by the old `Vy`,
/// every other register (`Vy` included) unchanged; the program counter moves
/// past the instruction and nothing else changes.
#[verifier::spinoff_prover]
#[verifier::rlimit(50)]
pub proof fn law_step_copies_register<P: Memory + Display + Keypad>(
    c: CpuState,
    p: P,
    r: Result<(), Error>,
    c2: CpuState,
    p2: P,
)
    requires
        c.vs.len() == 16,
        stepped(c, &p, r, c2, &p2),
        word_at(&p, c.pc) / 0x1000 == 8,
        word_at(&p, c.pc) % 0x10 == 0,
    ensures
        ({
            let x = ((word_at(&p, c.pc) / 0x100) % 0x10) as int;
            let y = ((word_at(&p, c.pc) / 0x10) % 0x10) as int;
            &&& r is Ok
            &&& c2.vs.len() == 16
            &&& c2.vs[x] == c.vs[y]
            &&& forall|k: int| 0 <= k < 16 && k != x ==> c2.vs[k] == c.vs[k]
            &&& c2.pc == (c.pc + 2) % 0x1000
            &&& c2.sp == c.sp && c2.i == c.i && c2.dt == c.dt && c2.st == c.st
            &&& p2 == p
        }),
{
}

/// A timer tick lowers each timer by one when it is above zero and leaves it
/// at zero otherwise, each independently of the other; nothing else changes.
pub proof fn law_timers_count_down(c: CpuState)
    ensures
        timers_ticked(c).dt as int == if c.dt == 0 { 0 } else { c.dt - 1 },
        timers_ticked(c).st as int == if c.st == 0 { 0 } else { c.st - 1 },
        timers_ticked(c).pc == c.pc,
        timers_ticked(c).sp == c.sp,
        timers_ticked(c).i == c.i,
        timers_ticked(c).vs == c.vs,
{
}

/// The effect of one `8xy1` step, as [`law_step_arithmetic`] states it.
#[verifier::spinoff_prover]
#[verifier::rlimit(40)]
proof fn lemma_step_or<P: Memory + Display + Keypad>(c: CpuState, p: P, r: Result<(), Error>, c2: CpuState, p2: P)
    requires
        c.vs.len() == 16,
        stepped(c, &p, r, c2, &p2),
        word_at(&p, c.pc) / 0x1000 == 8,
        word_at(&p, c.pc) % 0x10 == 1,
    ensures
        ({
            let x = ((word_at(&p, c.pc) / 0x100) % 0x10) as int;
            let y = ((word_at(&p, c.pc) / 0x10) % 0x10) as int;
            let a = c.vs[x];
            let b = c.vs[y];
            let (value, flag) = ((a | b) as int, 0int);
            &&& r is Ok
            &&& c2.vs.len() == 16
            &&& c2.vs[15] == flag
            &&& x != 15 ==> c2.vs[x] == value
            &&& forall|k: int| 0 <= k < 15 && k != x ==> c2.vs[k] == c.vs[k]
            &&& c2.pc == (c.pc + 2) % 0x1000
            &&& c2.sp == c.sp && c2.i == c.i && c2.dt == c.dt && c2.st == c.st
            &&& p2 == p
        }),
{
    let w = word_at(&p, c.pc);
    assert(decoded(w) == Ok::<OpCode, Error>(OpCode::Or(((w / 0x100) % 0x10) as u8, ((w / 0x10) % 0x10) as u8)));
}

/// The effect of one `8xy2` step, as [`law_step_arithmetic`] states it.
#[verifier::spinoff_prover]
#[verifier::rlimit(40)]
proof fn lemma_step_and<P: Memory + Display + Keypad>(c: CpuState, p: P, r: Result<(), Error>, c2: CpuState, p2: P)
    requires
        c.vs.len() == 16,
        stepped(c, &p, r, c2, &p2),
        word_at(&p, c.pc) / 0x1000 == 8,
        word_at(&p, c.pc) % 0x10 == 2,
    ensures
        ({
            let x = ((word_at(&p, c.pc) / 0x100) % 0x10) as int;
            let y = ((word_at(&p, c.pc) / 0x10) % 0x10) as int;
            let a = c.vs[x];
            let b = c.vs[y];
            let (value, flag) = ((a & b) as int, 0int);
            &&& r is Ok
            &&& c2.vs.len() == 16
            &&& c2.vs[15] == flag
            &&& x != 15 ==> c2.vs[x] == value
            &&& forall|k: int| 0 <= k < 15 && k != x ==> c2.vs[k] == c.vs[k]
            &&& c2.pc == (c.pc + 2) % 0x1000
            &&& c2.sp == c.sp && c2.i == c.i && c2.dt == c.dt && c2.st == c.st
            &&& p2 == p
        }),
{
    let w = word_at(&p, c.pc);
    assert(decoded(w) == Ok::<OpCode, Error>(OpCode::And(((w / 0x100) % 0x10) as u8, ((w / 0x10) % 0x10) as u8)));
}

/// The effect of one `8xy3` step, as [`law_step_arithmetic`] states it.
#[verifier::spinoff_prover]
#[verifier::rlimit(40)]
proof fn lemma_step_xor<P: Memory + Display + Keypad>(c: CpuState, p: P, r: Result<(), Error>, c2: CpuState, p2: P)
    requires
        c.vs.len() == 16,
        stepped(c, &p, r, c2, &p2),
        word_at(&p, c.pc) / 0x1000 == 8,
        word_at(&p, c.pc) % 0x10 == 3,
    ensures
        ({
            let x = ((word_at(&p, c.pc) / 0x100) % 0x10) as int;
            let y = ((word_at(&p, c.pc) / 0x10) % 0x10) as int;
            let a = c.vs[x];
            let b = c.vs[y];
            let (value, flag) = ((a ^ b) as int, 0int);
            &&& r is Ok
            &&& c2.vs.len() == 16
            &&& c2.vs[15] == flag
            &&& x != 15 ==> c2.vs[x] == value
            &&& forall|k: int| 0 <= k < 15 && k != x ==> c2.vs[k] == c.vs[k]
            &&& c2.pc == (c.pc + 2) % 0x1000
            &&& c2.sp == c.sp && c2.i == c.i && c2.dt == c.dt && c2.st == c.st
            &&& p2 == p
        }),
{
    let w = word_at(&p, c.pc);
    assert(decoded(w) == Ok::<OpCode, Error>(OpCode::Xor(((w / 0x100) % 0x10) as u8, ((w / 0x10) % 0x10) as u8)));
}

/// The effect of one `8xy4` step, as [`law_step_arithmetic`] states it.
#[verifier::spinoff_prover]
#[verifier::rlimit(40)]
proof fn lemma_step_add<P: Memory + Display + Keypad>(c: CpuState, p: P, r: Result<(), Error>, c2: CpuState, p2: P)
    requires
        c.vs.len() == 16,
        stepped(c, &p, r, c2, &p2),
        word_at(&p, c.pc) / 0x1000 == 8,
        word_at(&p, c.pc) % 0x10 == 4,
    ensures
        ({
            let x = ((word_at(&p, c.pc) / 0x100) % 0x10) as int;
            let y = ((word_at(&p, c.pc) / 0x10) % 0x10) as int;
            let a = c.vs[x];
            let b = c.vs[y];
            let (value, flag) = ((a + b) % 256, if a + b >= 256 { 1int } else { 0int });
            &&& r is Ok
            &&& c2.vs.len() == 16
            &&& c2.vs[15] == flag
            &&& x != 15 ==> c2.vs[x] == value
            &&& forall|k: int| 0 <= k < 15 && k != x ==> c2.vs[k] == c.vs[k]
            &&& c2.pc == (c.pc + 2) % 0x1000
            &&& c2.sp == c.sp && c2.i == c.i && c2.dt == c.dt && c2.st == c.st
            &&& p2 == p
        }),
{
    let w = word_at(&p, c.pc);
    assert(decoded(w) == Ok::<OpCode, Error>(OpCode::Add(((w / 0x100) % 0x10) as u8, ((w / 0x10) % 0x10) as u8)));
}

/// The effect of one `8xy5` step, as [`law_step_arithmetic`] states it.
#[verifier::spinoff_prover]
#[verifier::rlimit(40)]
proof fn lemma_step_sub<P: Memory + Display + Keypad>(c: CpuState, p: P, r: Result<(), Error>, c2: CpuState, p2: P)
    requires
        c.vs.len() == 16,
        stepped(c, &p, r, c2, &p2),
        word_at(&p, c.pc) / 0x1000 == 8,
        word_at(&p, c.pc) % 0x10 == 5,
    ensures
        ({
            let x = ((word_at(&p, c.pc) / 0x100) % 0x10) as int;
            let y = ((word_at(&p, c.pc) / 0x10) % 0x10) as int;
            let a = c.vs[x];
            let b = c.vs[y];
            let (value, flag) = ((a - b + 256) % 256, if a >= b { 1int } else { 0int });
            &&& r is Ok
            &&& c2.vs.len() == 16
            &&& c2.vs[15] == flag
            &&& x != 15 ==> c2.vs[x] == value
            &&& forall|k: int| 0 <= k < 15 && k != x ==> c2.vs[k] == c.vs[k]
            &&& c2.pc == (c.pc + 2) % 0x1000
            &&& c2.sp == c.sp && c2.i == c.i && c2.dt == c.dt && c2.st == c.st
            &&& p2 == p
        }),
{
    let w = word_at(&p, c.pc);
    assert(decoded(w) == Ok::<OpCode, Error>(OpCode::Sub(((w / 0x100) % 0x10) as u8, ((w / 0x10) % 0x10) as u8)));
}

/// The effect of one `8xy6` step, as [`law_step_arithmetic`] states it.
#[verifier::spinoff_prover]
#[verifier::rlimit(40)]
proof fn lemma_step_rshift<P: Memory + Display + Keypad>(c: CpuState, p: P, r: Result<(), Error>, c2: CpuState, p2: P)
    requires
        c.vs.len() == 16,
        stepped(c, &p, r, c2, &p2),
        word_at(&p, c.pc) / 0x1000 == 8,
        word_at(&p, c.pc) % 0x10 == 6,
    ensures
        ({
            let x = ((word_at(&p, c.pc) / 0x100) % 0x10) as int;
            let y = ((word_at(&p, c.pc) / 0x10) % 0x10) as int;
            let a = c.vs[x];
            let b = c.vs[y];
            let (value, flag) = ((b / 2) as int, (b % 2) as int);
            &&& r is Ok
            &&& c2.vs.len() == 16
            &&& c2.vs[15] == flag
            &&& x != 15 ==> c2.vs[x] == value
            &&& forall|k: int| 0 <= k < 15 && k != x ==> c2.vs[k] == c.vs[k]
            &&& c2.pc == (c.pc + 2) % 0x1000
            &&& c2.sp == c.sp && c2.i == c.i && c2.dt == c.dt && c2.st == c.st
            &&& p2 == p
        }),
{
    let w = word_at(&p, c.pc);
    assert(decoded(w) == Ok::<OpCode, Error>(OpCode::RShift(((w / 0x100) % 0x10) as u8, ((w / 0x10) % 0x10) as u8)));
}

/// The effect of one `8xy7` step, as [`law_step_arithmetic`] states it.
#[verifier::spinoff_prover]
#[verifier::rlimit(40)]
proof fn lemma_step_invsub<P: Memory + Display + Keypad>(c: CpuState, p: P, r: Result<(), Error>, c2: CpuState, p2: P)
    requires
        c.vs.len() == 16,
        stepped(c, &p, r, c2, &p2),
        word_at(&p, c.pc) / 0x1000 == 8,
        word_at(&p, c.pc) % 0x10 == 7,
    ensures
        ({
            let x = ((word_at(&p, c.pc) / 0x100) % 0x10) as int;
            let y = ((word_at(&p, c.pc) / 0x10) % 0x10) as int;
            let a = c.vs[x];
            let b = c.vs[y];
            let (value, flag) = ((b - a + 256) % 256, if b >= a { 1int } else { 0int });
            &&& r is Ok
            &&& c2.vs.len() == 16
            &&& c2.vs[15] == flag
            &&& x != 15 ==> c2.vs[x] == value
            &&& forall|k: int| 0 <= k < 15 && k != x ==> c2.vs[k] == c.vs[k]
            &&& c2.pc == (c.pc + 2) % 0x1000
            &&& c2.sp == c.sp && c2.i == c.i && c2.dt == c.dt && c2.st == c.st
            &&& p2 == p
        }),
{
    let w = word_at(&p, c.pc);
    assert(decoded(w) == Ok::<OpCode, Error>(OpCode::InvSub(((w / 0x100) % 0x10) as u8, ((w / 0x10) % 0x10) as u8)));
}

/// The effect of one `8xye` step, as [`law_step_arithmetic`] states it.
#[verifier::spinoff_prover]
#[verifier::rlimit(40)]
proof fn lemma_step_lshift<P: Memory + Display + Keypad>(c: CpuState, p: P, r: Result<(), Error>, c2: CpuState, p2: P)
    requires
        c.vs.len() == 16,
        stepped(c, &p, r, c2, &p2),
        word_at(&p, c.pc) / 0x1000 == 8,
        word_at(&p, c.pc) % 0x10 == 14,
    ensures
        ({
            let x = ((word_at(&p, c.pc) / 0x100) % 0x10) as int;
            let y = ((word_at(&p, c.pc) / 0x10) % 0x10) as int;
            let a = c.vs[x];
            let b = c.vs[y];
            let (value, flag) = ((b * 2) % 256, (b / 128) as int);
            &&& r is Ok
            &&& c2.vs.len() == 16
            &&& c2.vs[15] == flag
            &&& x != 15 ==> c2.vs[x] == value
            &&& forall|k: int| 0 <= k < 15 && k != x ==> c2.vs[k] == c.vs[k]
            &&& c2.pc == (c.pc + 2) % 0x1000
            &&& c2.sp == c.sp && c2.i == c.i && c2.dt == c.dt && c2.st == c.st
            &&& p2 == p
        }),
{
    let w = word_at(&p, c.pc);
    assert(decoded(w) == Ok::<OpCode, Error>(OpCode::LShift(((w / 0x100) % 0x10) as u8, ((w / 0x10) % 0x10) as u8)));
}

/// A step on an arithmetic or logic instruction `8xyn` (`n` one of 1 to 7 or
/// 0xe) sets `Vx` to the result and then `VF` to the flag, as below, leaves
/// every other register and all of memory alone, and moves the program counter
/// past the instruction:
/// `8xy1`: `Vx | Vy`, flag 0; `8xy2`: `Vx & Vy`, flag 0; `8xy3`: `Vx ^ Vy`,
/// flag 0; `8xy4`: `Vx + Vy` modulo 256, flag 1 on a carry; `8xy5`: `Vx - Vy`
/// modulo 256, flag 1 when there is no borrow; `8xy6`: `Vy / 2`, flag the bit
/// shifted out; `8xy7`: `Vy - Vx` modulo 256, flag 1 when there is no borrow;
/// `8xye`: `2 * Vy` modulo 256, flag the bit shifted out.
#[verifier::spinoff_prover]
#[verifier::rlimit(50)]
pub proof fn law_step_arithmetic<P: Memory + Display + Keypad>(
    c: CpuState,
    p: P,
    r: Result<(), Error>,
    c2: CpuState,
    p2: P,
)
    requires
        c.vs.len() == 16,
        stepped(c, &p, r, c2, &p2),
        word_at(&p, c.pc) / 0x1000 == 8,
        1 <= word_at(&p, c.pc) % 0x10 <= 7 || word_at(&p, c.pc) % 0x10 == 0xe,
    ensures
        ({
            let n = word_at(&p, c.pc) % 0x10;
            let x = ((word_at(&p, c.pc) / 0x100) % 0x10) as int;
            let y = ((word_at(&p, c.pc) / 0x10) % 0x10) as int;
            let a = c.vs[x];
            let b = c.vs[y];
            let (value, flag) = if n == 1 {
                ((a | b) as int, 0int)
            } else if n == 2 {
                ((a & b) as int, 0int)
            } else if n == 3 {
                ((a ^ b) as int, 0int)
            } else if n == 4 {
                ((a + b) % 256, if a + b >= 256 { 1int } else { 0int })
            } else if n == 5 {
                ((a - b + 256) % 256, if a >= b { 1int } else { 0int })
            } else if n == 6 {
                ((b / 2) as int, (b % 2) as int)
            } else if n == 7 {
                ((b - a + 256) % 256, if b >= a { 1int } else { 0int })
            } else {
                ((b * 2) % 256, (b / 128) as int)
            };
            &&& r is Ok
            &&& c2.vs.len() == 16
            &&& c2.vs[15] == flag
            &&& x != 15 ==> c2.vs[x] == value
            &&& forall|k: int| 0 <= k < 15 && k != x ==> c2.vs[k] == c.vs[k]
            &&& c2.pc == (c.pc + 2) % 0x1000
            &&& c2.sp == c.sp && c2.i == c.i && c2.dt == c.dt && c2.st == c.st
            &&& p2 == p
        }),
{
    let n = word_at(&p, c.pc) % 0x10;
    if n == 1 {
        lemma_step_or(c, p, r, c2, p2);
    } else if n == 2 {
        lemma_step_and(c, p, r, c2, p2);
    } else if n == 3 {
        lemma_step_xor(c, p, r, c2, p2);
    } else if n == 4 {
        lemma_step_add(c, p, r, c2, p2);
    } else if n == 5 {
        lemma_step_sub(c, p, r, c2, p2);
    } else if n == 6 {
        lemma_step_rshift(c, p, r, c2, p2);
    } else if n == 7 {
        lemma_step_invsub(c, p, r, c2, p2);
    } else {
        lemma_step_lshift(c, p, r, c2, p2);
    }
}

/// A step on `6xkk` sets `Vx` to `kk`; on `7xkk` it adds `kk` to `Vx` modulo
/// 256, leaving `VF` alone. Every other register and all of memory stay, and the
/// program counter moves past the instruction.
#[verifier::spinoff_prover]
#[verifier::rlimit(50)]
pub proof fn law_step_immediate<P: Memory + Display + Keypad>(
    c: CpuState,
    p: P,
    r: Result<(), Error>,
    c2: CpuState,
    p2: P,
)
    requires
        c.vs.len() == 16,
        stepped(c, &p, r, c2, &p2),
        word_at(&p, c.pc) / 0x1000 == 6 || word_at(&p, c.pc) / 0x1000 == 7,
    ensures
        ({
            let x = ((word_at(&p, c.pc) / 0x100) % 0x10) as int;
            let kk = word_at(&p, c.pc) % 0x100;
            &&& r is Ok
            &&& c2.vs.len() == 16
            &&& c2.vs[x] == if word_at(&p, c.pc) / 0x1000 == 6 { kk as int } else { (c.vs[x] + kk) % 256 }
            &&& forall|k: int| 0 <= k < 16 && k != x ==> c2.vs[k] == c.vs[k]
            &&& c2.pc == (c.pc + 2) % 0x1000
            &&& c2.sp == c.sp && c2.i == c.i && c2.dt == c.dt && c2.st == c.st
            &&& p2 == p
        }),
{
}

/// A step on a skip instruction moves the program counter four bytes on when
/// its condition holds and two otherwise, changing nothing else: `3xkk` when
/// `Vx == kk`, `4xkk` when `Vx != kk`, `5xy0` when `Vx == Vy`, `9xy0` when
/// `Vx != Vy`.
#[verifier::spinoff_prover]
#[verifier::rlimit(50)]
pub proof fn law_step_skip<P: Memory + Display + Keypad>(
    c: CpuState,
    p: P,
    r: Result<(), Error>,
    c2: CpuState,
    p2: P,
)
    requires
        c.vs.len() == 16,
        stepped(c, &p, r, c2, &p2),
        ({
            let w = word_at(&p, c.pc);
            w / 0x1000 == 3 || w / 0x1000 == 4 || ((w / 0x1000 == 5 || w / 0x1000 == 9) && w % 0x10 == 0)
        }),
    ensures
        ({
            let w = word_at(&p, c.pc);
            let kind = w / 0x1000;
            let a = c.vs[((w / 0x100) % 0x10) as int];
            let b = c.vs[((w / 0x10) % 0x10) as int];
            let kk = (w % 0x100) as u8;
            let skip = if kind == 3 {
                a == kk
            } else if kind == 4 {
                a != kk
            } else if kind == 5 {
                a == b
            } else {
                a != b
            };
            &&& r is Ok
            &&& c2.pc == (c.pc + if skip { 4int } else { 2int }) % 0x1000
            &&& c2.vs == c.vs && c2.sp == c.sp && c2.i == c.i && c2.dt == c.dt && c2.st == c.st
            &&& p2 == p
        }),
{
    let w = word_at(&p, c.pc);
    let x = ((w / 0x100) % 0x10) as u8;
    let y = ((w / 0x10) % 0x10) as u8;
    let kk = (w % 0x100) as u8;
    let kind = w / 0x1000;
    if kind == 3 {
        assert(decoded(w) == Ok::<OpCode, Error>(OpCode::SkipEqual(x, kk)));
    } else if kind == 4 {
        assert(decoded(w) == Ok::<OpCode, Error>(OpCode::SkipNotEqual(x, kk)));
    } else if kind == 5 {
        assert(decoded(w) == Ok::<OpCode, Error>(OpCode::SkipRegistersEqual(x, y)));
    } else {
        assert(decoded(w) == Ok::<OpCode, Error>(OpCode::SkipRegistersNotEqual(x, y)));
    }
}

/// A step on `1nnn` jumps to `nnn`, on `bnnn` to `nnn + V0` in the address
/// space, on `annn` sets the index register to `nnn`; each changes nothing
/// else.
#[verifier::spinoff_prover]
#[verifier::rlimit(50)]
pub proof fn law_step_jump<P: Memory + Display + Keypad>(
    c: CpuState,
    p: P,
    r: Result<(), Error>,
    c2: CpuState,
    p2: P,
)
    requires
        c.vs.len() == 16,
        c.pc < 0x1000,
        stepped(c, &p, r, c2, &p2),
        ({
            let kind = word_at(&p, c.pc) / 0x1000;
            kind == 1 || kind == 0xa || kind == 0xb
        }),
    ensures
        ({
            let w = word_at(&p, c.pc);
            let kind = w / 0x1000;
            let nnn = w % 0x1000;
            &&& r is Ok
            &&& c2.pc == if kind == 1 { nnn as int } else if kind == 0xb { (nnn + c.vs[0]) % 0x1000 } else { (c.pc + 2) % 0x1000 }
            &&& c2.i == if kind == 0xa { nnn } else { c.i }
            &&& c2.vs == c.vs && c2.sp == c.sp && c2.dt == c.dt && c2.st == c.st
            &&& p2 == p
        }),
{
    broadcast use group_address;
}

/// A step on `fx33` stores the hundreds, tens and units digits of `Vx` at the
/// index register and the two bytes after it; every other byte stays, and so
/// do the registers, but for the program counter moving on.
#[verifier::spinoff_prover]
#[verifier::rlimit(50)]
pub proof fn law_step_bcd<P: Memory + Display + Keypad>(
    c: CpuState,
    p: P,
    r: Result<(), Error>,
    c2: CpuState,
    p2: P,
)
    requires
        c.vs.len() == 16,
        c.i < 0x1000,
        stepped(c, &p, r, c2, &p2),
        word_at(&p, c.pc) / 0x1000 == 0xf,
        word_at(&p, c.pc) % 0x100 == 0x33,
    ensures
        ({
            let v = c.vs[((word_at(&p, c.pc) / 0x100) % 0x10) as int];
            &&& r is Ok
            &&& p2.byte(c.i) as int == v / 100
            &&& p2.byte(((c.i + 1) % 0x1000) as u16) as int == (v / 10) % 10
            &&& p2.byte(((c.i + 2) % 0x1000) as u16) as int == v % 10
            &&& forall|a: u16|
                a != c.i && a != (c.i + 1) % 0x1000 && a != (c.i + 2) % 0x1000 ==> #[trigger] p2.byte(a) == p.byte(a)
            &&& c2.vs == c.vs && c2.i == c.i && c2.pc == (c.pc + 2) % 0x1000
        }),
{
}

/// A step on an instruction word with no meaning, such as any `cxkk`,
/// reports it by value and changes nothing.
#[verifier::spinoff_prover]
#[verifier::rlimit(50)]
pub proof fn law_step_unknown<P: Memory + Display + Keypad>(
    c: CpuState,
    p: P,
    r: Result<(), Error>,
    c2: CpuState,
    p2: P,
)
    requires
        stepped(c, &p, r, c2, &p2),
        word_at(&p, c.pc) / 0x1000 == 0xc,
    ensures
        r == Err::<(), Error>(Error::UnknownOpCode(word_at(&p, c.pc))),
        c2 == c,
        p2 == p,
{
}

/// A step on `fx07` copies the delay timer into `Vx`, `fx15` sets the delay
/// timer to `Vx`, `fx18` sets the sound timer to `Vx`, `fx1e` adds `Vx` to the
/// index register in the address space; nothing else changes but the program
/// counter moving on.
#[verifier::spinoff_prover]
#[verifier::rlimit(50)]
pub proof fn law_step_timers_and_index<P: Memory + Display + Keypad>(
    c: CpuState,
    p: P,
    r: Result<(), Error>,
    c2: CpuState,
    p2: P,
)
    requires
        c.vs.len() == 16,
        stepped(c, &p, r, c2, &p2),
        word_at(&p, c.pc) / 0x1000 == 0xf,
        ({
            let kk = word_at(&p, c.pc) % 0x100;
            kk == 0x07 || kk == 0x15 || kk == 0x18 || kk == 0x1e
        }),
    ensures
        ({
            let w = word_at(&p, c.pc);
            let kk = w % 0x100;
            let x = ((w / 0x100) % 0x10) as int;
            &&& r is Ok
            &&& c2.vs == if kk == 0x07 { c.vs.update(x, c.dt) } else { c.vs }
            &&& c2.dt == if kk == 0x15 { c.vs[x] } else { c.dt }
            &&& c2.st == if kk == 0x18 { c.vs[x] } else { c.st }
            &&& c2.i as int == if kk == 0x1e { (c.i + c.vs[x]) % 0x1000 } else { c.i as int }
            &&& c2.pc == (c.pc + 2) % 0x1000 && c2.sp == c.sp
            &&& p2 == p
        }),
{
    let w = word_at(&p, c.pc);
    let x = ((w / 0x100) % 0x10) as u8;
    let kk = w % 0x100;
    if kk == 0x07 {
        assert(decoded(w) == Ok::<OpCode, Error>(OpCode::SetDelay(x)));
    } else if kk == 0x15 {
        assert(decoded(w) == Ok::<OpCode, Error>(OpCode::Delay(x)));
    } else if kk == 0x18 {
        assert(decoded(w) == Ok::<OpCode, Error>(OpCode::Sound(x)));
    } else {
        assert(decoded(w) == Ok::<OpCode, Error>(OpCode::IncIndex(x)));
    }
}

/// A step on `fx55` stores `V0` to `Vx` in memory from the index register on,
/// leaving every other byte, and moves the index register `x + 1` bytes on; a
/// step on `fx65` loads `V0` to `Vx` from there, leaving the other registers
/// and memory, and moves the index register alike.
#[verifier::spinoff_prover]
#[verifier::rlimit(50)]
pub proof fn law_step_store_load<P: Memory + Display + Keypad>(
    c: CpuState,
    p: P,
    r: Result<(), Error>,
    c2: CpuState,
    p2: P,
)
    requires
        c.vs.len() == 16,
        c.i < 0x1000,
        stepped(c, &p, r, c2, &p2),
        word_at(&p, c.pc) / 0x1000 == 0xf,
        word_at(&p, c.pc) % 0x100 == 0x55 || word_at(&p, c.pc) % 0x100 == 0x65,
    ensures
        ({
            let w = word_at(&p, c.pc);
            let x = ((w / 0x100) % 0x10) as int;
            &&& r is Ok
            &&& c2.i == (c.i + x + 1) % 0x1000
            &&& c2.pc == (c.pc + 2) % 0x1000
            &&& w % 0x100 == 0x55 ==> {
                &&& forall|k: int| 0 <= k <= x ==> #[trigger] p2.byte(((c.i + k) % 0x1000) as u16) == c.vs[k]
                &&& forall|a: u16|
                    a < 0x1000 && (a - c.i + 0x1000) % 0x1000 > x ==> #[trigger] p2.byte(a) == p.byte(a)
                &&& c2.vs == c.vs
            }
            &&& w % 0x100 == 0x65 ==> {
                &&& c2.vs.len() == 16
                &&& forall|k: int| 0 <= k <= x ==> #[trigger] c2.vs[k] == p.byte(((c.i + k) % 0x1000) as u16)
                &&& forall|k: int| x < k < 16 ==> #[trigger] c2.vs[k] == c.vs[k]
                &&& p2 == p
            }
        }),
{
    let w = word_at(&p, c.pc);
    let x = ((w / 0x100) % 0x10) as u8;
    if w % 0x100 == 0x55 {
        assert(decoded(w) == Ok::<OpCode, Error>(OpCode::Write(x)));
        let c1 = skipped(c);
        assert forall|k: int| 0 <= k <= x implies #[trigger] p2.byte(((c.i + k) % 0x1000) as u16) == c.vs[k] by {
            let a = ((c.i + k) % 0x1000) as u16;
            lemma_offset(a, c.i, k);
            assert(p2.byte(a) == register_stores(c1, x + 1)[a]);
        }
        assert forall|a: u16| a < 0x1000 && (a - c.i + 0x1000) % 0x1000 > x implies #[trigger] p2.byte(a) == p.byte(a) by {
            assert((a - c.i) % 0x1000 == (a - c.i + 0x1000) % 0x1000);
            assert(!register_stores(c1, x + 1).contains_key(a));
        }
    } else {
        assert(decoded(w) == Ok::<OpCode, Error>(OpCode::Read(x)));
    }
}

/// A step on `2nnn` stores the address of the next instruction on the stack,
/// high byte at the stack pointer and low byte below it, lowers the stack
/// pointer by two and jumps to `nnn`; the `00ee` step after it returns to that
/// next instruction with the stack pointer back.
#[verifier::spinoff_prover]
#[verifier::rlimit(50)]
pub proof fn law_step_call<P: Memory + Display + Keypad>(
    c: CpuState,
    p: P,
    r: Result<(), Error>,
    c2: CpuState,
    p2: P,
)
    requires
        c.pc < 0x1000,
        c.sp < 0x1000,
        stepped(c, &p, r, c2, &p2),
        word_at(&p, c.pc) / 0x1000 == 2,
    ensures
        ({
            let next = (c.pc + 2) % 0x1000;
            &&& r is Ok
            &&& c2.pc == word_at(&p, c.pc) % 0x1000
            &&& c2.sp == (c.sp - 2 + 0x1000) % 0x1000
            &&& p2.byte(c.sp) == next / 0x100
            &&& p2.byte(((c.sp + 0xfff) % 0x1000) as u16) == next % 0x100
            &&& forall|a: u16| a != c.sp && a != (c.sp + 0xfff) % 0x1000 ==> #[trigger] p2.byte(a) == p.byte(a)
            &&& c2.vs == c.vs && c2.i == c.i && c2.dt == c.dt && c2.st == c.st
            &&& next_state(c2, &p2, OpCode::Return).pc == next
            &&& next_state(c2, &p2, OpCode::Return).sp == c.sp
        }),
{
    let w = word_at(&p, c.pc);
    let target = Address::from_value((w % 0x1000) as u16);
    Address::lemma_from_value((w % 0x1000) as u16);
    assert(decoded(w) == Ok::<OpCode, Error>(OpCode::Call(target)));
    let c1 = skipped(c);
    assert(c2 == (CpuState { pc: target@, ..after_push(c1) }));
    assert(stored(&p, push_stores(c1, c1.pc), &p2));
    assert(wrap(c.sp - 1) == (c.sp + 0xfff) % 0x1000);
    law_pop_after_push(c1, c1.pc, p, p2);
}

/// A step on `dxyn` draws the `n` bytes from the index register on at
/// (`Vx`, `Vy`) and sets `VF` to 1 exactly when that draw collides, leaving the
/// other registers; a step on `00e0` clears the screen and leaves the registers.
/// Both move the program counter past the instruction.
#[verifier::spinoff_prover]
#[verifier::rlimit(50)]
pub proof fn law_step_screen<P: Memory + Display + Keypad>(
    c: CpuState,
    p: P,
    r: Result<(), Error>,
    c2: CpuState,
    p2: P,
)
    requires
        c.vs.len() == 16,
        stepped(c, &p, r, c2, &p2),
        word_at(&p, c.pc) / 0x1000 == 0xd || word_at(&p, c.pc) == 0x00e0,
    ensures
        ({
            let w = word_at(&p, c.pc);
            let vx = c.vs[((w / 0x100) % 0x10) as int];
            let vy = c.vs[((w / 0x10) % 0x10) as int];
            let rows = Seq::new((w % 0x10) as nat, |k: int| p.byte(((c.i + k) % 0x1000) as u16));
            &&& r is Ok
            &&& c2.pc == (c.pc + 2) % 0x1000
            &&& c2.sp == c.sp && c2.i == c.i && c2.dt == c.dt && c2.st == c.st
            &&& w == 0x00e0 ==> c2.vs == c.vs && p.cleared(&p2)
            &&& w != 0x00e0 ==> {
                &&& p.drawn(vx, vy, rows, &p2)
                &&& c2.vs == c.vs.update(15, if p.collides(vx, vy, rows) { 1u8 } else { 0u8 })
            }
        }),
{
    let w = word_at(&p, c.pc);
    if w != 0x00e0 {
        let x = ((w / 0x100) % 0x10) as u8;
        let y = ((w / 0x10) % 0x10) as u8;
        let n = (w % 0x10) as u8;
        assert(decoded(w) == Ok::<OpCode, Error>(OpCode::Draw(x, y, n)));
        assert(sprite_at(&p, c.i, n) =~= Seq::new((w % 0x10) as nat, |k: int| p.byte(((c.i + k) % 0x1000) as u16)));
    }
}

/// A step on `ex9e` skips the next instruction exactly when key `Vx % 16` is
/// down, `exa1` exactly when it is up; a step on `fx0a` puts the awaited key in
/// `Vx` and moves on when there is one, and otherwise stays on the same
/// instruction. Memory and the other registers stay.
#[verifier::spinoff_prover]
#[verifier::rlimit(50)]
pub proof fn law_step_keys<P: Memory + Display + Keypad>(
    c: CpuState,
    p: P,
    r: Result<(), Error>,
    c2: CpuState,
    p2: P,
)
    requires
        c.vs.len() == 16,
        c.pc < 0x1000,
        stepped(c, &p, r, c2, &p2),
        ({
            let w = word_at(&p, c.pc);
            (w / 0x1000 == 0xe && (w % 0x100 == 0x9e || w % 0x100 == 0xa1)) || (w / 0x1000 == 0xf && w % 0x100 == 0x0a)
        }),
    ensures
        ({
            let w = word_at(&p, c.pc);
            let x = ((w / 0x100) % 0x10) as int;
            let down = p.is_pressed(c.vs[x] % 16);
            &&& r is Ok
            &&& p2 == p
            &&& c2.sp == c.sp && c2.i == c.i && c2.dt == c.dt && c2.st == c.st
            &&& w % 0x100 == 0x9e ==> c2.vs == c.vs && c2.pc == (c.pc + if down { 4int } else { 2int }) % 0x1000
            &&& w % 0x100 == 0xa1 ==> c2.vs == c.vs && c2.pc == (c.pc + if down { 2int } else { 4int }) % 0x1000
            &&& w % 0x100 == 0x0a ==> match p.awaited() {
                Some(k) => c2.vs == c.vs.update(x, k) && c2.pc == (c.pc + 2) % 0x1000,
                None => c2.vs == c.vs && c2.pc == c.pc,
            }
        }),
{
    let w = word_at(&p, c.pc);
    let x = ((w / 0x100) % 0x10) as u8;
    if w % 0x100 == 0x9e {
        assert(decoded(w) == Ok::<OpCode, Error>(OpCode::IsKey(x)));
    } else if w % 0x100 == 0xa1 {
        assert(decoded(w) == Ok::<OpCode, Error>(OpCode::IsNotKey(x)));
    } else {
        assert(decoded(w) == Ok::<OpCode, Error>(OpCode::WaitKey(x)));
    }
}

/// Moving `offset` bytes on from an address stays put when the offset is a
/// whole number of times the address space, and lands on `a + offset` while
/// that stays inside it.
pub proof fn law_wrapping_add_period(a: u16, offset: int, k: int)
    requires
        a < 0x1000,
        0 <= offset,
        0 <= k,
    ensures
        wrap(a + k * 0x1000) == a,
        a + offset < 0x1000 ==> wrap(a + offset) == a + offset,
        wrap(a + k * 0x1000 + offset) == wrap(a + offset),
{
    vstd::arithmetic::div_mod::lemma_mod_multiples_vanish(k, a as int, 0x1000);
    vstd::arithmetic::div_mod::lemma_mod_multiples_vanish(k, a + offset, 0x1000);
    assert(k * 0x1000 == 0x1000 * k) by (nonlinear_arith);
}

} // verus!
