use ssd1306_driver_rs::command::DEFAULT_I2C_ADDRESS;
use ssd1306_driver_rs::interface::{i2c_command_frame, i2c_frames, DisplayInterface, I2C_CONTROL_DATA};
// No reset line is wired in these tests, so the reset step trivially succeeded.
const NO_RESET: Result<(), core::convert::Infallible> = Ok(());

use ssd1306_driver_rs::{BufferError, DisplaySize, Ssd1306, VccState};

// Records every I2C write the display would make: single commands and data
// are framed as the I2C transport frames them, while command sequences keep
// the default `commands`, which sends them one byte at a time (the batching
// transport is exercised in batched_transport.rs).
struct I2cRecorder {
    address: u8,
    writes: Vec<(u8, Vec<u8>)>,
}

impl I2cRecorder {
    fn new(address: u8) -> Self {
        I2cRecorder { address, writes: Vec::new() }
    }
}

impl DisplayInterface for I2cRecorder {
    type Error = core::convert::Infallible;

    fn command(&mut self, cmd: u8) -> Result<(), Self::Error> {
        self.writes.push((self.address, i2c_command_frame(cmd)));
        Ok(())
    }

    fn data(&mut self, data: &[u8]) -> Result<(), Self::Error> {
        for frame in i2c_frames(I2C_CONTROL_DATA, data) {
            self.writes.push((self.address, frame));
        }
        Ok(())
    }
}

fn cmd(addr: u8, byte: u8) -> (u8, Vec<u8>) {
    (addr, vec![0x00, byte])
}

#[test]
fn init_sequence_matches_128x64_switchcap() {
    let addr: u8 = DEFAULT_I2C_ADDRESS;
    let expected = vec![
        cmd(addr, 0xAE), // DISPLAYOFF
        cmd(addr, 0xD5), // SETDISPLAYCLOCKDIV
        cmd(addr, 0x80),
        cmd(addr, 0xA8), // SETMULTIPLEX
        cmd(addr, 0x3F),
        cmd(addr, 0xD3), // SETDISPLAYOFFSET
        cmd(addr, 0x00),
        cmd(addr, 0x40), // SETSTARTLINE | 0
        cmd(addr, 0x8D), // CHARGEPUMP
        cmd(addr, 0x14), // switch-cap
        cmd(addr, 0x20), // MEMORYMODE
        cmd(addr, 0x00),
        cmd(addr, 0xA1), // SEGREMAP | 1
        cmd(addr, 0xC8), // COMSCANDEC
        cmd(addr, 0xDA), // SETCOMPINS
        cmd(addr, 0x12),
        cmd(addr, 0x81), // SETCONTRAST
        cmd(addr, 0xCF),
        cmd(addr, 0xD9), // SETPRECHARGE
        cmd(addr, 0xF1),
        cmd(addr, 0xDB), // SETVCOMDETECT
        cmd(addr, 0x40),
        cmd(addr, 0xA4), // DISPLAYALLON_RESUME
        cmd(addr, 0xA6), // NORMALDISPLAY
        cmd(addr, 0xAF), // DISPLAYON
    ];

    let interface = I2cRecorder::new(addr);
    let mut display = Ssd1306::new_without_reset(interface, DisplaySize::Size128x64);
    display.init(VccState::SwitchCap, NO_RESET).unwrap();

    let (interface, _reset_pin) = display.release();
    assert_eq!(interface.writes, expected);
}

#[test]
fn init_sequence_matches_128x64_external_vcc() {
    let addr: u8 = DEFAULT_I2C_ADDRESS;
    let expected = vec![
        cmd(addr, 0xAE), // DISPLAYOFF
        cmd(addr, 0xD5), // SETDISPLAYCLOCKDIV
        cmd(addr, 0x80),
        cmd(addr, 0xA8), // SETMULTIPLEX
        cmd(addr, 0x3F),
        cmd(addr, 0xD3), // SETDISPLAYOFFSET
        cmd(addr, 0x00),
        cmd(addr, 0x40), // SETSTARTLINE | 0
        cmd(addr, 0x8D), // CHARGEPUMP
        cmd(addr, 0x10), // external VCC
        cmd(addr, 0x20), // MEMORYMODE
        cmd(addr, 0x00),
        cmd(addr, 0xA1), // SEGREMAP | 1
        cmd(addr, 0xC8), // COMSCANDEC
        cmd(addr, 0xDA), // SETCOMPINS
        cmd(addr, 0x12),
        cmd(addr, 0x81), // SETCONTRAST
        cmd(addr, 0x9F),
        cmd(addr, 0xD9), // SETPRECHARGE
        cmd(addr, 0x22), // external VCC
        cmd(addr, 0xDB), // SETVCOMDETECT
        cmd(addr, 0x40),
        cmd(addr, 0xA4), // DISPLAYALLON_RESUME
        cmd(addr, 0xA6), // NORMALDISPLAY
        cmd(addr, 0xAF), // DISPLAYON
    ];

    let interface = I2cRecorder::new(addr);
    let mut display = Ssd1306::new_without_reset(interface, DisplaySize::Size128x64);
    display.init(VccState::External, NO_RESET).unwrap();

    let (interface, _reset_pin) = display.release();
    assert_eq!(interface.writes, expected);
}

#[test]
fn dimensions_and_buffer_size_are_128x64() {
    let interface = I2cRecorder::new(DEFAULT_I2C_ADDRESS);
    let display = Ssd1306::new_without_reset(interface, DisplaySize::Size128x64);

    assert_eq!(display.width(), 128);
    assert_eq!(display.height(), 64);
    assert_eq!(display.buffer().len(), 128 * 8);

    let (interface, _reset_pin) = display.release();
    assert!(interface.writes.is_empty());
}

#[test]
fn set_pixel_matches_original_bit_packing() {
    let interface = I2cRecorder::new(DEFAULT_I2C_ADDRESS);
    let mut display = Ssd1306::new_without_reset(interface, DisplaySize::Size128x64);

    // Pixel at (10, 9): page = 9 / 8 = 1, bit = 9 % 8 = 1.
    assert!(!display.get_pixel(10, 9));
    display.set_pixel(10, 9, true);
    assert!(display.get_pixel(10, 9));

    let page: usize = 1usize;
    let index: usize = page * display.width() as usize + 10;
    assert_eq!(display.buffer()[index], 0b0000_0010);

    display.set_pixel(10, 9, false);
    assert!(!display.get_pixel(10, 9));
    assert_eq!(display.buffer()[index], 0);

    let (interface, _reset_pin) = display.release();
    assert!(interface.writes.is_empty());
}

#[test]
fn set_pixel_out_of_bounds_is_ignored_128x64() {
    let interface = I2cRecorder::new(DEFAULT_I2C_ADDRESS);
    let mut display = Ssd1306::new_without_reset(interface, DisplaySize::Size128x64);

    display.set_pixel(0, 64, true);
    display.set_pixel(128, 0, true);
    assert!(display.buffer().iter().all(|&b| b == 0));

    let (interface, _reset_pin) = display.release();
    assert!(interface.writes.is_empty());
}

#[test]
fn set_buffer_rejects_wrong_size() {
    let interface = I2cRecorder::new(DEFAULT_I2C_ADDRESS);
    let mut display = Ssd1306::new_without_reset(interface, DisplaySize::Size128x64);

    let err = display.set_buffer(&[0u8; 4]).unwrap_err();
    match err {
        BufferError::WrongSize { expected, actual } => {
            assert_eq!(expected, 128 * 64 / 8);
            assert_eq!(actual, 4);
        }
    }

    let ok_buf = vec![0u8; 128 * 64 / 8];
    assert!(display.set_buffer(&ok_buf).is_ok());

    let (interface, _reset_pin) = display.release();
    assert!(interface.writes.is_empty());
}
