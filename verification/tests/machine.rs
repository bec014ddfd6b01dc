use chip_8::machine::{pixel_color, Chip8, ORANGE, WHITE};
use chip_8::windowing::Updatable;
use chip_8::Error;
use std::time::Duration;

#[test]
fn pixel_color_is_fill() {
    let mut fb = [0; 256];

    fb[0] = 0b10000000;
    fb[1] = 0b00001000;

    assert_eq!(pixel_color(&fb, 0), ORANGE);
    assert_eq!(pixel_color(&fb, 12), ORANGE);

    for i in [1, 2, 3, 4, 5, 6, 7, 8, 9, 10, 11, 13, 14, 15] {
        assert_eq!(pixel_color(&fb, i), WHITE, "pixel {i} should be white");
    }
}

#[test]
fn rom_filling_its_room_is_refused() {
    let rom = vec![0; 0xe00];

    assert!(matches!(
        Chip8::from_rom(&rom),
        Err(Error::RomTooLarge { size: 0xe00, capacity: 0xe00 })
    ));
}

#[test]
fn rom_one_byte_short_of_its_room_is_loaded() {
    let rom = vec![0; 0xdff];

    assert!(Chip8::from_rom(&rom).is_ok());
}

#[test]
fn new_machine_has_a_dark_screen() {
    let chip8 = Chip8::from_rom_with_quirk(&[0x12, 0x00], 1).unwrap();

    assert_eq!(chip8.framebuffer(), &[0u8; 0x100][..]);
}

#[test]
fn update_runs_a_program_that_draws() {
    // Clear, point I at the sprite, V0 = V1 = 0, draw one row at (0, 0), loop.
    let rom = [
        0x00, 0xe0, 0xa2, 0x0c, 0x60, 0x00, 0x61, 0x00, 0xd0, 0x11, 0x12, 0x0a, 0xf0,
    ];
    let mut chip8 = Chip8::from_rom(&rom).unwrap();

    chip8.update(Duration::from_millis(20)).unwrap();

    let mut expected = [0u8; 0x100];
    expected[0] = 0xf0;
    assert_eq!(chip8.framebuffer(), &expected[..]);
}

#[test]
fn update_less_than_a_tick_runs_nothing() {
    // An unknown instruction would fail as soon as it runs.
    let mut chip8 = Chip8::from_rom(&[0xff, 0xff]).unwrap();

    assert_eq!(chip8.update(Duration::from_micros(1999)), Ok(()));
    assert_eq!(
        chip8.update(Duration::from_micros(1)),
        Err(Error::UnknownOpCode(0xffff))
    );
}
