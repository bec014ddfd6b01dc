# chip_8

A CHIP-8 interpreter whose core is verified with Verus.

- `src/cpu.rs`: 12-bit addresses, registers, instruction decoding and the
  interpreter; `next_state` and `peripheral_next` state what each instruction
  does, and `Cpu::step` is proved to follow them.
- `src/peripheral.rs`: memory with the frame buffer; drawing is stated byte by
  byte through `draw_mask`.
- `src/cd4515.rs`: a sixteen-key keypad that can wait for a key release.
- `src/ticker.rs`: turns elapsed time into interpreter steps and timer ticks;
  `schedule` states which calls are made, in which order.
- `src/machine.rs`: the whole machine, its ROM loading and its pixel colours.
- `app/`: the window, the rendering surface, the sound output and `main`.

The laws proved of each module are its `law_*` proof functions.
