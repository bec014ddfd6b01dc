use vstd::prelude::*;

use std::time::Duration;

use crate::cpu::{decoded, lemma_cpu_view_injective, skipped, stepped, timers_ticked, word_at, Cpu, CpuState, START_PC};
use crate::peripheral::{lemma_peripheral_next_functional, Peripheral, FRAMEBUFFER_END, FRAMEBUFFER_START, MEMORY_LENGTH};
use crate::ticker::{
    advanced, deterministic, driven, duration_nanos, law_driven_deterministic, lemma_runs_short, runs, schedule,
    timer_after, TickEvent, Ticker, TickerState, Tickable,
};
use crate::windowing::Updatable;
use crate::Error;

verus! {

/// The interpreter and the peripherals it drives.
pub struct Component {
    pub cpu: Cpu,
    pub peripheral: Peripheral,
}

impl Tickable for Component {
    type Error = Error;

    // The interpreter runs at 500 Hz, its timers at 60 Hz.
    const DT_TICK_MICROS: u64 = 1_000_000 / 500;
    const DT_TICK_TIMER_MICROS: u64 = 1_000_000 / 60;

    /// A tick is one step of the interpreter.
    open spec fn ticked(&self, after: &Self, r: Result<(), Error>) -> bool {
        stepped(self.cpu@, &self.peripheral, r, after.cpu@, &after.peripheral)
    }

    /// A timer tick counts the interpreter's timers down.
    open spec fn timer_ticked(&self, after: &Self) -> bool {
        &&& after.cpu@ == timers_ticked(self.cpu@)
        &&& after.peripheral == self.peripheral
    }

    fn tick(&mut self) -> (r: Result<(), Self::Error>) {
        self.cpu.step(&mut self.peripheral)
    }

    fn tick_timer(&mut self) {
        self.cpu.tick_timer();
    }
}

/// The memory of a machine that was just given `rom`: the program from
/// [`START_PC`] on, `quirk` in the byte before it, zeros elsewhere.
pub open spec fn loaded_memory(rom: Seq<u8>, quirk: u8) -> Seq<u8> {
    Seq::new(
        MEMORY_LENGTH as nat,
        |k: int|
            if k == START_PC - 1 {
                quirk
            } else if START_PC <= k < START_PC + rom.len() {
                rom[k - START_PC]
            } else {
                0
            },
    )
}

/// Room for a program in memory.
pub open spec fn rom_capacity() -> usize {
    (MEMORY_LENGTH - START_PC) as usize
}

/// A complete machine: interpreter, memory and screen, run in real time.
pub struct Chip8 {
    pub component: Component,
    pub ticker: Ticker,
}

impl Chip8 {
    /// The interpreter's registers and timers.
    pub open spec fn cpu(&self) -> CpuState {
        self.component.cpu@
    }

    /// The machine's memory.
    pub open spec fn memory(&self) -> Seq<u8> {
        self.component.peripheral.memory@
    }

    /// The time received and not yet run.
    pub open spec fn clock(&self) -> TickerState {
        self.ticker@
    }

    /// A machine about to run `rom`, with `quirk` in the byte before it. A
    /// program must leave at least one byte of its room free.
    pub fn from_rom_with_quirk(rom: &[u8], quirk: u8) -> (r: Result<Self, Error>)
        ensures
            match r {
                Ok(c) => {
                    &&& rom@.len() < rom_capacity()
                    &&& c.memory() == loaded_memory(rom@, quirk)
                    &&& c.cpu() == Cpu::new_state()
                    &&& c.clock() == (TickerState { pending: 0, timer_pending: 0 })
                },
                Err(e) => {
                    &&& rom@.len() >= rom_capacity()
                    &&& e == (Error::RomTooLarge { size: rom@.len() as usize, capacity: rom_capacity() })
                },
            },
    {
        let start = START_PC as usize;
        let capacity = MEMORY_LENGTH - start;

        if rom.len() < capacity {
            let mut memory = [0u8; MEMORY_LENGTH];
            memory[start - 1] = quirk;
            let mut k: usize = 0;
            while k < rom.len()
                invariant
                    start == START_PC,
                    rom@.len() < capacity == MEMORY_LENGTH - start,
                    k <= rom@.len(),
                    memory@ == Seq::new(
                        MEMORY_LENGTH as nat,
                        |j: int|
                            if j == START_PC - 1 {
                                quirk
                            } else if START_PC <= j < START_PC + k {
                                rom@[j - START_PC]
                            } else {
                                0
                            },
                    ),
                decreases rom@.len() - k,
            {
                memory[start + k] = rom[k];
                k += 1;
                assert(memory@ =~= Seq::new(
                    MEMORY_LENGTH as nat,
                    |j: int|
                        if j == START_PC - 1 {
                            quirk
                        } else if START_PC <= j < START_PC + k {
                            rom@[j - START_PC]
                        } else {
                            0
                        },
                ));
            }
            let component = Component { cpu: Cpu::new(), peripheral: Peripheral::new(memory) };
            let ticker = Ticker::new();
            assert(memory@ =~= loaded_memory(rom@, quirk));

            Ok(Self { component, ticker })
        } else {
            Err(Error::RomTooLarge { size: rom.len(), capacity })
        }
    }

    /// A machine about to run `rom`, with a zero byte before it.
    pub fn from_rom(rom: &[u8]) -> (r: Result<Self, Error>)
        ensures
            match r {
                Ok(c) => {
                    &&& rom@.len() < rom_capacity()
                    &&& c.memory() == loaded_memory(rom@, 0)
                    &&& c.cpu() == Cpu::new_state()
                    &&& c.clock() == (TickerState { pending: 0, timer_pending: 0 })
                },
                Err(e) => {
                    &&& rom@.len() >= rom_capacity()
                    &&& e == (Error::RomTooLarge { size: rom@.len() as usize, capacity: rom_capacity() })
                },
            },
    {
        Self::from_rom_with_quirk(rom, 0)
    }

    /// The sound timer is running: the machine should sound.
    pub fn is_beeping(&self) -> (r: bool)
        ensures
            r == (self.cpu().st > 0),
    {
        self.component.cpu.st > 0
    }

    /// The bytes of the frame buffer.
    pub fn framebuffer(&self) -> (r: &[u8])
        ensures
            r@ == self.memory().subrange(FRAMEBUFFER_START as int, FRAMEBUFFER_END as int),
    {
        self.component.peripheral.framebuffer()
    }
}

/// Time between two instructions, in nanoseconds: the interpreter runs at 500 Hz.
pub open spec fn instruction_nanos() -> u128 {
    2_000_000
}

/// Time between two timer ticks, in nanoseconds: the timers run at 60 Hz,
/// counted in whole microseconds.
pub open spec fn timer_nanos() -> u128 {
    16_666_000
}

impl Chip8 {
    /// `after` is this machine once `delta` more nanoseconds were run, the run
    /// giving `r`: the clock took the time, and the interpreter took as many
    /// steps, each preceded by a timer tick when one falls due, as the time
    /// pending allows, stopping after the first step that failed. Time that would
    /// take the clock out of its range runs nothing.
    pub open spec fn ran_for(&self, delta: u128, r: Result<(), Error>, after: &Chip8) -> bool {
        if self.ticker@.timer_pending <= u128::MAX / 2 && self.ticker@.pending + delta <= u128::MAX {
            &&& advanced(self.ticker@, delta, instruction_nanos(), timer_nanos(), r, after.ticker@)
            &&& driven(self.ticker@, delta, instruction_nanos(), timer_nanos(), r, after.ticker@, self.component, after.component)
        } else {
            &&& r is Ok
            &&& after.ticker@ == self.ticker@
            &&& after.component == self.component
        }
    }
}

impl Updatable for Chip8 {
    type Error = Error;

    /// Runs the instructions and timer ticks that `delta` more time allows.
    fn update(&mut self, delta: Duration) -> (r: Result<(), Error>)
        ensures
            old(self).ran_for(duration_nanos(delta), r, final(self)),
    {
        self.ticker.tick(delta, &mut self.component)
    }
}

/// A step and a timer tick of the interpreter each have one outcome only.
proof fn lemma_component_deterministic()
    ensures
        deterministic::<Component>(),
{
    assert forall|x: Component, y1: Component, y2: Component, r1: Result<(), Error>, r2: Result<(), Error>|
        x.ticked(&y1, r1) && x.ticked(&y2, r2) implies r1 == r2 && y1 == y2 by {
        let c = x.cpu@;
        let p = x.peripheral;
        match decoded(word_at(&p, c.pc)) {
            Ok(op) => {
                lemma_peripheral_next_functional(skipped(c), p, op, y1.peripheral, y2.peripheral);
            },
            Err(_) => {},
        }
        lemma_cpu_view_injective(y1.cpu, y2.cpu);
    }
    assert forall|x: Component, y1: Component, y2: Component|
        x.timer_ticked(&y1) && x.timer_ticked(&y2) implies y1 == y2 by {
        lemma_cpu_view_injective(y1.cpu, y2.cpu);
    }
}

/// Running a machine is deterministic: the same machine run for the same time
/// ends the same, with the same outcome.
pub proof fn law_update_deterministic(
    m: Chip8,
    delta: u128,
    r1: Result<(), Error>,
    after1: Chip8,
    r2: Result<(), Error>,
    after2: Chip8,
)
    requires
        m.ran_for(delta, r1, &after1),
        m.ran_for(delta, r2, &after2),
    ensures
        r1 == r2,
        after1.cpu() == after2.cpu(),
        after1.memory() == after2.memory(),
        after1.clock() == after2.clock(),
{
    if m.ticker@.timer_pending <= u128::MAX / 2 && m.ticker@.pending + delta <= u128::MAX {
        lemma_component_deterministic();
        law_driven_deterministic(
            m.ticker@,
            delta,
            instruction_nanos(),
            timer_nanos(),
            m.component,
            r1,
            after1.ticker@,
            after1.component,
            r2,
            after2.ticker@,
            after2.component,
        );
    } else {
        match (r1, r2) {
            (Ok(u1), Ok(u2)) => assert(u1 == u2),
            _ => {},
        }
    }
}

/// Time that, with the time pending, falls short of an instruction runs
/// nothing: the machine is unchanged but for the time pending.
pub proof fn law_update_idle(m: Chip8, delta: u128, r: Result<(), Error>, after: Chip8)
    requires
        m.ran_for(delta, r, &after),
        m.clock().timer_pending <= u128::MAX / 2,
        m.clock().pending + delta < instruction_nanos(),
    ensures
        r is Ok,
        after.cpu() == m.cpu(),
        after.memory() == m.memory(),
        after.clock() == (TickerState { pending: (m.clock().pending + delta) as u128, ..m.clock() }),
{
    let total = m.clock().pending + delta;
    assert(total / (instruction_nanos() as int) == 0);
    assert(total % (instruction_nanos() as int) == total);
    match r {
        Ok(_) => {
            lemma_runs_short(m.component, after.component, Seq::<TickEvent>::empty());
        },
        Err(_) => {},
    }
}

/// Time that, with the time pending, covers one instruction and no timer tick
/// runs exactly one step of the interpreter.
pub proof fn law_update_one_step(m: Chip8, delta: u128, r: Result<(), Error>, after: Chip8)
    requires
        m.ran_for(delta, r, &after),
        m.clock().timer_pending + instruction_nanos() < timer_nanos(),
        instruction_nanos() <= m.clock().pending + delta < 2 * instruction_nanos(),
    ensures
        stepped(m.cpu(), &m.component.peripheral, r, after.cpu(), &after.component.peripheral),
        after.clock().pending == m.clock().pending + delta - instruction_nanos(),
{
    let total = m.clock().pending + delta;
    let t = m.clock().timer_pending as int;
    let dt = instruction_nanos() as int;
    let dtt = timer_nanos() as int;
    assert(total / dt == 1);
    assert(total % dt == total - dt);
    let one = schedule(t, 1, dt, dtt);
    assert(schedule(t, 0, dt, dtt) =~= Seq::<TickEvent>::empty());
    assert(one =~= seq![TickEvent::Tick]);
    match r {
        Ok(u) => {
            lemma_runs_short(m.component, after.component, one);
            assert(u == ());
        },
        Err(e) => {
            let (k, mid) = choose|k: nat, mid: Component|
                1 <= k <= total / dt && after.clock().pending == total - k * instruction_nanos()
                    && after.clock().timer_pending == timer_after(t, k, dt, dtt) && #[trigger] runs(
                    m.component,
                    mid,
                    schedule(t, k, dt, dtt).drop_last(),
                ) && mid.ticked(&after.component, Err(e));
            assert(one.drop_last() =~= Seq::<TickEvent>::empty());
            lemma_runs_short(m.component, mid, one.drop_last());
        },
    }
}

/// Colour of a lit pixel, as red, green, blue, alpha.
pub const ORANGE: [u8; 4] = [0xff, 0x95, 0x0, 0xff];

/// Colour of a dark pixel, as red, green, blue, alpha.
pub const WHITE: [u8; 4] = [0xff, 0xff, 0xff, 0xff];

/// Pixel `i` of the frame buffer `framebuffer`, counted line by line from the
/// top left, is lit: the bit for it is set, bits running from the most
/// significant one of each byte.
pub open spec fn pixel_lit(framebuffer: Seq<u8>, i: int) -> bool {
    (framebuffer[i / 8] >> ((7 - i % 8) as u8)) & 1 == 1
}

/// The colour of pixel `i` of `framebuffer`.
pub fn pixel_color(framebuffer: &[u8], i: usize) -> (r: [u8; 4])
    requires
        i / 8 < framebuffer@.len(),
    ensures
        r == if pixel_lit(framebuffer@, i as int) { ORANGE } else { WHITE },
{
    let bit = 7 - (i % 8) as u8;
    let index = i / 8;
    let line = framebuffer[index];
    proof {
        assert(line & (1u8 << bit) != 0 <==> (line >> bit) & 1 == 1) by (bit_vector)
            requires bit < 8;
    }

    if (line & (1 << bit)) != 0 {
        ORANGE
    } else {
        WHITE
    }
}

/// A loaded machine's memory holds the quirk byte just before the program,
/// the program byte for byte from address 0x200 on, and zeros everywhere else.
pub proof fn law_loaded_memory(rom: Seq<u8>, quirk: u8)
    requires
        rom.len() < rom_capacity(),
    ensures
        loaded_memory(rom, quirk).len() == 0x1000,
        loaded_memory(rom, quirk)[0x1ff] == quirk,
        forall|k: int| 0 <= k < rom.len() ==> #[trigger] loaded_memory(rom, quirk)[0x200 + k] == rom[k],
        forall|i: int|
            0 <= i < 0x1000 && i != 0x1ff && !(0x200 <= i < 0x200 + rom.len())
                ==> #[trigger] loaded_memory(rom, quirk)[i] == 0,
{
}

/// The pixel in column `x` of line `y` is lit exactly when its bit is set in
/// the frame buffer: byte `8 * y + x / 8`, counting bit `x % 8` from the most
/// significant one.
pub proof fn law_pixel_lit(framebuffer: Seq<u8>, x: int, y: int)
    requires
        0 <= x < 64,
        0 <= y < 32,
        framebuffer.len() == 0x100,
    ensures
        pixel_lit(framebuffer, 64 * y + x) == (framebuffer[8 * y + x / 8] & (0x80u8 >> ((x % 8) as u8)) != 0),
{
    let i = 64 * y + x;
    vstd::arithmetic::div_mod::lemma_fundamental_div_mod(x, 8);
    assert(i == (8 * y + x / 8) * 8 + x % 8) by (nonlinear_arith)
        requires i == 64 * y + x, x == 8 * (x / 8) + x % 8;
    vstd::arithmetic::div_mod::lemma_fundamental_div_mod_converse(i, 8, 8 * y + x / 8, x % 8);
    let b = framebuffer[8 * y + x / 8];
    let k = (x % 8) as u8;
    assert((b >> ((7 - k) as u8)) & 1 == 1 <==> b & (0x80u8 >> k) != 0) by (bit_vector)
        requires k < 8;
}

} // verus!
