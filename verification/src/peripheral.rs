use vstd::prelude::*;

use crate::cpu::{peripheral_next, Address, CpuState, Display, Keypad, Memory, OpCode};

verus! {

/// Width of the screen in pixels.
pub const WIDTH: u8 = 64;

/// Height of the screen in pixels.
pub const HEIGHT: u8 = 32;

/// First byte of the frame buffer: one bit per pixel, eight pixels per byte,
/// eight bytes per line, the leftmost pixel in the most significant bit.
pub const FRAMEBUFFER_START: usize = 0xf00;

/// One past the last byte of the frame buffer.
pub const FRAMEBUFFER_END: usize = 0x1000;

/// Size of the memory.
pub const MEMORY_LENGTH: usize = 0x1000;

/// The bits that drawing `sprite` at (`x`, `y`) flips in the memory byte at
/// `index`. The position wraps around the screen; the sprite is clipped at the
/// bottom and right edges. Row `n` of the sprite lands on line `y + n`, shifted
/// right by `x` modulo eight within the byte that holds column `x`, the bits
/// shifted out landing at the left of the next byte on the line.
pub open spec fn draw_mask(x: u8, y: u8, sprite: Seq<u8>, index: int) -> u8 {
    let col = x % WIDTH;
    let top = y % HEIGHT;
    let cell = col / 8;
    let shift = col % 8;
    let offset = index - FRAMEBUFFER_START;
    let n = offset / 8 - top;
    let byte_col = offset % 8;
    if 0 <= offset < 0x100 && 0 <= n < sprite.len() {
        if byte_col == cell {
            sprite[n] >> shift
        } else if byte_col == cell + 1 && shift != 0 {
            sprite[n] << ((8 - shift) as u8)
        } else {
            0
        }
    } else {
        0
    }
}

/// The memory byte at `index` holds a lit pixel that drawing `sprite` at
/// (`x`, `y`) switches off.
pub open spec fn hits(memory: Seq<u8>, x: u8, y: u8, sprite: Seq<u8>, index: int) -> bool {
    memory[index] & draw_mask(x, y, sprite, index) != 0
}

/// Memory holding the frame buffer; the screen and keypad of the interpreter.
pub struct Peripheral {
    pub memory: [u8; MEMORY_LENGTH],
}

impl Peripheral {
    pub fn new(memory: [u8; MEMORY_LENGTH]) -> (r: Self)
        ensures
            r.memory == memory,
    {
        Self { memory }
    }

    /// The bytes of the frame buffer.
    pub fn framebuffer(&self) -> (r: &[u8])
        ensures
            r@ == self.memory@.subrange(FRAMEBUFFER_START as int, FRAMEBUFFER_END as int),
    {
        vstd::slice::slice_subrange(self.memory.as_slice(), FRAMEBUFFER_START, FRAMEBUFFER_END)
    }

    /// Flips the bits `s` of the byte at `index`; tells whether one of them was set.
    fn draw_one(&mut self, index: usize, s: u8) -> (r: bool)
        requires
            index < MEMORY_LENGTH,
        ensures
            r == (old(self).memory@[index as int] & s != 0),
            final(self).memory@ == old(self).memory@.update(index as int, old(self).memory@[index as int] ^ s),
    {
        let ret = self.memory[index] & s != 0x0;

        self.memory[index] = self.memory[index] ^ s;

        ret
    }

    /// Stores `value` in the byte just before the program, where programs look
    /// for the interpreter variant to emulate.
    pub fn quirks_rom(&mut self, value: u8)
        ensures
            final(self).memory@ == old(self).memory@.update(0x1ff, value),
    {
        self.memory[0x1ff] = value;
    }
}

impl Memory for Peripheral {
    open spec fn byte(&self, address: u16) -> u8 {
        if address < MEMORY_LENGTH {
            self.memory@[address as int]
        } else {
            0
        }
    }

    fn read(&self, address: Address) -> (r: u8)
        ensures
            r == self.memory@[address@ as int],
    {
        self.memory[address.value() as usize]
    }

    fn write(&mut self, address: Address, value: u8)
        ensures
            final(self).memory@ == old(self).memory@.update(address@ as int, value),
    {
        self.memory[address.value() as usize] = value;
    }
}

/// The byte at `row * 8 + col` of the frame buffer is on line `row`, in byte column `col`.
proof fn lemma_cell(row: int, col: int)
    requires
        0 <= row,
        0 <= col < 8,
    ensures
        (row * 8 + col) / 8 == row,
        (row * 8 + col) % 8 == col,
{
    assert((row * 8 + col) / 8 == row && (row * 8 + col) % 8 == col) by (nonlinear_arith)
        requires
            0 <= row,
            0 <= col < 8,
    ;
}

/// Drawing row `n` of a sprite flips the byte holding its column on line
/// `y + n` and, when the sprite is not byte-aligned and that byte is not the
/// last of the line, the byte after it; every other byte is flipped as by the
/// rows before.
proof fn lemma_draw_row(x: u8, y: u8, sprite: Seq<u8>, n: int)
    requires
        0 <= n < sprite.len(),
        y % HEIGHT + n < HEIGHT,
    ensures
        ({
            let cell = (x % WIDTH) / 8;
            let shift = (x % WIDTH) % 8;
            let index = FRAMEBUFFER_START + (y % HEIGHT + n) * 8 + cell;
            let spill = shift != 0 && cell < 7;
            &&& draw_mask(x, y, sprite.take(n + 1), index) == sprite[n] >> shift
            &&& draw_mask(x, y, sprite.take(n), index) == 0
            &&& spill ==> draw_mask(x, y, sprite.take(n + 1), index + 1) == sprite[n] << ((8 - shift) as u8)
            &&& spill ==> draw_mask(x, y, sprite.take(n), index + 1) == 0
            &&& forall|i: int|
                i != index && !(spill && i == index + 1) ==> #[trigger] draw_mask(x, y, sprite.take(n + 1), i)
                    == draw_mask(x, y, sprite.take(n), i)
        }),
{
    let top = y % HEIGHT;
    let cell = (x % WIDTH) / 8;
    let shift = (x % WIDTH) % 8;
    let index = FRAMEBUFFER_START + (top + n) * 8 + cell;
    lemma_cell(top + n, cell as int);
    if cell < 7 {
        lemma_cell(top + n, cell + 1);
    }
    assert forall|i: int|
        i != index && !(shift != 0 && cell < 7 && i == index + 1) implies #[trigger] draw_mask(x, y, sprite.take(n + 1), i)
            == draw_mask(x, y, sprite.take(n), i) by {
        let offset = i - FRAMEBUFFER_START;
        if 0 <= offset < 0x100 && offset / 8 - top == n {
            lemma_cell(offset / 8, offset % 8);
            assert(offset == (top + n) * 8 + offset % 8);
        }
    }
}

impl Display for Peripheral {
    open spec fn cleared(&self, after: &Self) -> bool {
        after.memory@ == Seq::new(
            MEMORY_LENGTH as nat,
            |i: int| if i >= FRAMEBUFFER_START { 0 } else { self.memory@[i] },
        )
    }

    open spec fn drawn(&self, x: u8, y: u8, sprite: Seq<u8>, after: &Self) -> bool {
        after.memory@ == Seq::new(
            MEMORY_LENGTH as nat,
            |i: int| self.memory@[i] ^ draw_mask(x, y, sprite, i),
        )
    }

    open spec fn collides(&self, x: u8, y: u8, sprite: Seq<u8>) -> bool {
        exists|i: int|
            FRAMEBUFFER_START <= i < FRAMEBUFFER_END && #[trigger] hits(self.memory@, x, y, sprite, i)
    }

    /// Switches every pixel off; the rest of memory stays as it is.
    fn clear(&mut self) {
        let mut i: usize = FRAMEBUFFER_START;
        while i < FRAMEBUFFER_END
            invariant
                FRAMEBUFFER_START <= i <= FRAMEBUFFER_END,
                self.memory@ == Seq::new(
                    MEMORY_LENGTH as nat,
                    |k: int| if FRAMEBUFFER_START <= k < i { 0 } else { old(self).memory@[k] },
                ),
            decreases FRAMEBUFFER_END - i,
        {
            self.memory[i] = 0;
            i += 1;
            assert(self.memory@ =~= Seq::new(
                MEMORY_LENGTH as nat,
                |k: int| if FRAMEBUFFER_START <= k < i { 0 } else { old(self).memory@[k] },
            ));
        }
        assert(self.memory@ =~= Seq::new(
            MEMORY_LENGTH as nat,
            |k: int| if k >= FRAMEBUFFER_START { 0 } else { old(self).memory@[k] },
        ));
    }

    /// XORs `sprite` onto the screen at (`x`, `y`); tells whether a lit pixel
    /// went dark.
    fn draw(&mut self, x: u8, y: u8, sprite: &[u8]) -> (r: bool) {
        let ghost (x0, y0, before) = (x, y, self.memory@);
        let x = x % WIDTH;
        let y = (y % HEIGHT) as usize;
        let x_index = (x / 8) as usize;
        let x_bits = x % 8;
        let mut ret = false;
        proof {
            assert(forall|a: u8| #[trigger] (a ^ 0u8) == a) by (bit_vector);
            assert(forall|a: u8| #[trigger] (a & 0u8) == 0u8) by (bit_vector);
            assert(self.memory@ =~= Seq::new(
                MEMORY_LENGTH as nat,
                |i: int| before[i] ^ draw_mask(x0, y0, sprite@.take(0), i),
            ));
        }
        let mut n: usize = 0;
        while n < sprite.len()
            invariant_except_break
                n <= sprite.len(),
            invariant
                x == x0 % WIDTH,
                y == y0 % HEIGHT,
                x_index == x / 8,
                x_bits == x % 8,
                forall|a: u8| #[trigger] (a ^ 0u8) == a,
                forall|a: u8| #[trigger] (a & 0u8) == 0u8,
                self.memory@ == Seq::new(
                    MEMORY_LENGTH as nat,
                    |i: int| before[i] ^ draw_mask(x0, y0, sprite@.take(n as int), i),
                ),
                ret == exists|i: int|
                    FRAMEBUFFER_START <= i < FRAMEBUFFER_END
                        && #[trigger] hits(before, x0, y0, sprite@.take(n as int), i),
            ensures
                n <= sprite.len(),
                n == sprite.len() || y + n >= HEIGHT,
            decreases sprite.len() - n,
        {
            if n >= HEIGHT as usize - y {
                break;
            }
            let s = sprite[n];
            let row = y + n;
            proof {
                lemma_draw_row(x0, y0, sprite@, n as int);
            }
            let ghost (ret0, prev, next) = (ret, sprite@.take(n as int), sprite@.take(n + 1));

            let index = FRAMEBUFFER_START + row * 8 + x_index;
            let spill = x_bits != 0 && x_index < (WIDTH / 8) as usize - 1;

            let hit = self.draw_one(index, s >> x_bits);
            ret = ret || hit;
            let ghost hit1 = hit;
            let ghost mut hit2 = false;

            if spill {
                let hit = self.draw_one(index + 1, s << (8 - x_bits));
                ret = ret || hit;
                proof {
                    hit2 = hit;
                }
            }
            n += 1;
            proof {
                assert(hit1 == hits(before, x0, y0, next, index as int));
                assert(spill ==> hit2 == hits(before, x0, y0, next, index + 1));
                assert(!hits(before, x0, y0, prev, index as int));
                assert(spill ==> !hits(before, x0, y0, prev, index + 1));
                if ret {
                    if ret0 {
                        let i = choose|i: int|
                            FRAMEBUFFER_START <= i < FRAMEBUFFER_END && #[trigger] hits(before, x0, y0, prev, i);
                        assert(hits(before, x0, y0, next, i));
                    } else if hit1 {
                        assert(hits(before, x0, y0, next, index as int));
                    } else {
                        assert(hits(before, x0, y0, next, index + 1));
                    }
                } else {
                    assert forall|i: int| FRAMEBUFFER_START <= i < FRAMEBUFFER_END implies !#[trigger] hits(
                        before,
                        x0,
                        y0,
                        next,
                        i,
                    ) by {
                        if i != index && !(spill && i == index + 1) {
                            assert(!hits(before, x0, y0, prev, i));
                        }
                    }
                }
                assert(self.memory@ =~= Seq::new(
                    MEMORY_LENGTH as nat,
                    |i: int| before[i] ^ draw_mask(x0, y0, next, i),
                ));
            }
        }
        proof {
            assert forall|i: int| #[trigger] draw_mask(x0, y0, sprite@.take(n as int), i) == draw_mask(x0, y0, sprite@, i) by {
                if n == sprite.len() {
                    assert(sprite@.take(n as int) =~= sprite@);
                }
            }
            assert forall|i: int| #[trigger] hits(before, x0, y0, sprite@.take(n as int), i) == hits(before, x0, y0, sprite@, i) by {
                assert(draw_mask(x0, y0, sprite@.take(n as int), i) == draw_mask(x0, y0, sprite@, i));
            }
            assert(self.memory@ =~= Seq::new(
                MEMORY_LENGTH as nat,
                |i: int| before[i] ^ draw_mask(x0, y0, sprite@, i),
            ));
            if ret {
                let i = choose|i: int|
                    FRAMEBUFFER_START <= i < FRAMEBUFFER_END && #[trigger] hits(before, x0, y0, sprite@.take(n as int), i);
                assert(hits(before, x0, y0, sprite@, i));
            } else {
                assert forall|i: int| FRAMEBUFFER_START <= i < FRAMEBUFFER_END implies !#[trigger] hits(
                    before,
                    x0,
                    y0,
                    sprite@,
                    i,
                ) by {
                    assert(!hits(before, x0, y0, sprite@.take(n as int), i));
                }
            }
            assert(ret == old(self).collides(x0, y0, sprite@));
        }
        ret
    }
}

impl Keypad for Peripheral {
    /// No key is ever reported as pressed.
    open spec fn is_pressed(&self, key: u8) -> bool {
        false
    }

    /// A wait for a key never ends.
    open spec fn awaited(&self) -> Option<u8> {
        None
    }

    fn key_pressed(&self, _key: u8) -> (r: bool) {
        false
    }

    fn wait_key(&self) -> (r: Option<u8>) {
        None
    }
}

/// Drawing a sprite twice at the same place leaves memory as it was.
pub proof fn law_draw_twice_restores(p: Peripheral, x: u8, y: u8, sprite: Seq<u8>, once: Peripheral, twice: Peripheral)
    requires
        p.drawn(x, y, sprite, &once),
        once.drawn(x, y, sprite, &twice),
    ensures
        twice.memory@ == p.memory@,
{
    assert forall|i: int| 0 <= i < MEMORY_LENGTH implies twice.memory@[i] == p.memory@[i] by {
        let a = p.memory@[i];
        let m = draw_mask(x, y, sprite, i);
        assert((a ^ m) ^ m == a) by (bit_vector);
    }
    assert(twice.memory@ =~= p.memory@);
}

/// Drawing changes no byte outside the frame buffer.
pub proof fn law_draw_stays_in_framebuffer(p: Peripheral, x: u8, y: u8, sprite: Seq<u8>, after: Peripheral, i: int)
    requires
        p.drawn(x, y, sprite, &after),
        0 <= i < FRAMEBUFFER_START,
    ensures
        after.memory@[i] == p.memory@[i],
{
    let a = p.memory@[i];
    assert(a ^ 0 == a) by (bit_vector);
}

/// Drawing on a dark screen switches no pixel off, so it reports no collision.
pub proof fn law_no_collision_on_dark_screen(p: Peripheral, x: u8, y: u8, sprite: Seq<u8>)
    requires
        forall|i: int| FRAMEBUFFER_START <= i < FRAMEBUFFER_END ==> p.memory@[i] == 0,
    ensures
        !p.collides(x, y, sprite),
{
    assert forall|i: int| FRAMEBUFFER_START <= i < FRAMEBUFFER_END implies !#[trigger] hits(p.memory@, x, y, sprite, i) by {
        let m = draw_mask(x, y, sprite, i);
        assert(0u8 & m == 0) by (bit_vector);
    }
}

/// Clearing switches every pixel off and changes nothing else; a draw right
/// after it reports no collision.
pub proof fn law_clear_then_draw(p: Peripheral, cleared: Peripheral, x: u8, y: u8, sprite: Seq<u8>)
    requires
        p.cleared(&cleared),
    ensures
        forall|i: int| 0 <= i < FRAMEBUFFER_START ==> cleared.memory@[i] == p.memory@[i],
        forall|i: int| FRAMEBUFFER_START <= i < FRAMEBUFFER_END ==> cleared.memory@[i] == 0,
        !cleared.collides(x, y, sprite),
{
    law_no_collision_on_dark_screen(cleared, x, y, sprite);
}

/// Peripherals with the same memory are the same peripherals.
pub proof fn lemma_peripheral_memory_injective(a: Peripheral, b: Peripheral)
    requires
        a.memory@ == b.memory@,
    ensures
        a == b,
{
    vstd::array::axiom_array_ext_equal(a.memory, b.memory);
}

/// What an instruction leaves of the peripherals is determined by the
/// instruction, the interpreter and the peripherals before it.
pub proof fn lemma_peripheral_next_functional(c: CpuState, p: Peripheral, op: OpCode, p1: Peripheral, p2: Peripheral)
    requires
        peripheral_next(c, &p, op, &p1),
        peripheral_next(c, &p, op, &p2),
    ensures
        p1 == p2,
{
    match op {
        OpCode::Call(_) | OpCode::Bcd(_) | OpCode::Write(_) => {
            assert forall|i: int| 0 <= i < MEMORY_LENGTH implies p1.memory@[i] == p2.memory@[i] by {
                assert(p1.byte(i as u16) == p2.byte(i as u16));
            }
            assert(p1.memory@ =~= p2.memory@);
        },
        _ => {},
    }
    lemma_peripheral_memory_injective(p1, p2);
}

/// Row `n` of a sprite drawn at (`x`, `y`), on a line still on the screen,
/// lands on line `y % 32 + n`: the byte holding column `x % 64` is XORed with
/// the row shifted right by `x % 8`, and, when that shift is not zero and the
/// byte is not the last of the line, the next byte is XORed with the bits
/// shifted out, moved to its left end. The draw reports a collision whenever one
/// of these two bytes had a lit bit among those it flips.
pub proof fn law_draw_row(p: Peripheral, x: u8, y: u8, sprite: Seq<u8>, n: int, after: Peripheral)
    requires
        0 <= n < sprite.len(),
        (y % 32) as int + n < 32,
        p.drawn(x, y, sprite, &after),
    ensures
        ({
            let col = x % 64;
            let shift = col % 8;
            let index = 0xf00 + ((y % 32) as int + n) * 8 + (col / 8) as int;
            let spill = shift != 0 && col / 8 < 7;
            let left = sprite[n] >> shift;
            let right = (sprite[n] << ((8 - shift) as u8)) as u8;
            &&& after.memory@[index] == p.memory@[index] ^ left
            &&& spill ==> after.memory@[index + 1] == p.memory@[index + 1] ^ right
            &&& p.memory@[index] & left != 0 ==> p.collides(x, y, sprite)
            &&& spill && p.memory@[index + 1] & right != 0 ==> p.collides(x, y, sprite)
        }),
{
    let top = y % HEIGHT;
    let cell = (x % WIDTH) / 8;
    let index = FRAMEBUFFER_START + (top + n) * 8 + cell;
    lemma_cell(top + n, cell as int);
    if cell < 7 {
        lemma_cell(top + n, cell + 1);
    }
    assert(hits(p.memory@, x, y, sprite, index) == (p.memory@[index] & (sprite[n] >> ((x % WIDTH) % 8)) != 0));
    if (x % WIDTH) % 8 != 0 && cell < 7 {
        assert(hits(p.memory@, x, y, sprite, index + 1) == (p.memory@[index + 1] & (sprite[n] << ((8 - (x % WIDTH) % 8) as u8)) != 0));
    }
}

/// A draw changes only the bytes that its rows land on: a frame buffer byte on
/// line `y % 32 + n` for no row `n` of the sprite, or in a byte column other
/// than the one holding column `x % 64` and, for a shift that is not zero, the
/// one after it, keeps its value. A collision is reported only where a byte
/// that a row lands on had a lit bit among those the row flips there.
pub proof fn law_draw_touches_only_its_rows(p: Peripheral, x: u8, y: u8, sprite: Seq<u8>, after: Peripheral)
    requires
        p.drawn(x, y, sprite, &after),
    ensures
        forall|i: int|
            0 <= i < 0x1000 ==> {
                let col = x % 64;
                let shift = col % 8;
                let n = (i - 0xf00) / 8 - (y % 32) as int;
                let byte_col = (i - 0xf00) % 8;
                (i < 0xf00 || !(0 <= n < sprite.len()) || (byte_col != col / 8 && !(shift != 0 && byte_col == col / 8 + 1)))
                    ==> #[trigger] after.memory@[i] == p.memory@[i]
            },
        p.collides(x, y, sprite) ==> exists|i: int|
            0xf00 <= i < 0x1000 && {
                let col = x % 64;
                let shift = col % 8;
                let n = (i - 0xf00) / 8 - (y % 32) as int;
                let byte_col = (i - 0xf00) % 8;
                &&& 0 <= n < sprite.len()
                &&& byte_col == col / 8 ==> #[trigger] p.memory@[i] & (sprite[n] >> shift) != 0
                &&& byte_col != col / 8 ==> shift != 0 && byte_col == col / 8 + 1
                    && p.memory@[i] & ((sprite[n] << ((8 - shift) as u8)) as u8) != 0
            },
{
    assert forall|i: int| 0 <= i < 0x1000 implies {
        let col = x % 64;
        let shift = col % 8;
        let n = (i - 0xf00) / 8 - (y % 32) as int;
        let byte_col = (i - 0xf00) % 8;
        (i < 0xf00 || !(0 <= n < sprite.len()) || (byte_col != col / 8 && !(shift != 0 && byte_col == col / 8 + 1)))
            ==> #[trigger] after.memory@[i] == p.memory@[i]
    } by {
        let a = p.memory@[i];
        assert(a ^ 0 == a) by (bit_vector);
    }
    if p.collides(x, y, sprite) {
        let i = choose|i: int| FRAMEBUFFER_START <= i < FRAMEBUFFER_END && #[trigger] hits(p.memory@, x, y, sprite, i);
        let a = p.memory@[i];
        assert(a & 0 == 0) by (bit_vector);
        assert(p.memory@[i] & draw_mask(x, y, sprite, i) != 0);
    }
}

} // verus!
