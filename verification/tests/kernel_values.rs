use rust_os::allocator::{AllocError, Dummy};
use rust_os::interrupts::{InterruptIndex, PIC_1_OFFSET, PIC_2_OFFSET};
use rust_os::vga_buffer::{Color, ColorCode};
use rust_os::QemuExitCode;

#[test]
fn dummy_allocator_serves_nothing() {
    assert_eq!(Dummy.allocate(0, 1), Err(AllocError::OutOfMemory));
    assert_eq!(Dummy.allocate(8, 8), Err(AllocError::OutOfMemory));
    assert_eq!(Dummy.allocate(usize::MAX, 4096), Err(AllocError::OutOfMemory));
}

#[test]
fn interrupt_numbers_follow_the_controller_offset() {
    assert_eq!((PIC_1_OFFSET, PIC_2_OFFSET), (32, 40));
    assert_eq!(InterruptIndex::Timer.as_u8(), 32);
    assert_eq!(InterruptIndex::Keyboard.as_u8(), 33);
    assert_eq!(InterruptIndex::Timer.as_usize(), 32);
    assert_eq!(InterruptIndex::Keyboard.as_usize(), 33);
}

#[test]
fn exit_codes_are_those_of_the_emulator() {
    assert_eq!(QemuExitCode::Success.code(), 0x10);
    assert_eq!(QemuExitCode::Failed.code(), 0x11);
}

#[test]
fn colours_are_numbered_from_black_to_white() {
    let all = [
        Color::Black,
        Color::Blue,
        Color::Green,
        Color::Cyan,
        Color::Red,
        Color::Magenta,
        Color::Brown,
        Color::LightGray,
        Color::DarkGray,
        Color::LightBlue,
        Color::LightGreen,
        Color::LightCyan,
        Color::LightRed,
        Color::Pink,
        Color::Yellow,
        Color::White,
    ];
    for (number, color) in all.iter().enumerate() {
        assert_eq!(color.as_u8() as usize, number);
    }
}

#[test]
fn colour_code_holds_background_above_foreground() {
    assert_eq!(ColorCode::new(Color::LightGray, Color::Black), ColorCode(0x07));
    assert_eq!(ColorCode::new(Color::Yellow, Color::Blue), ColorCode(0x1e));
    assert_eq!(ColorCode::new(Color::Black, Color::White), ColorCode(0xf0));
    assert_eq!(ColorCode::new(Color::White, Color::White), ColorCode(0xff));
}
