use embedded_hal::digital::{ErrorKind, ErrorType, OutputPin};
use ssd1306_driver_rs::command::DEFAULT_I2C_ADDRESS;
use ssd1306_driver_rs::interface::{
    i2c_command_frame, i2c_frames, DisplayInterface, I2C_CONTROL_COMMAND, I2C_CONTROL_DATA,
};
use ssd1306_driver_rs::{reset_pulse, DisplaySize, InitError, ResetStep, Ssd1306, VccState};

const ADDR: u8 = DEFAULT_I2C_ADDRESS;
const NO_RESET: Result<(), core::convert::Infallible> = Ok(());

// An I2C transport that batches command sequences into one write, recording
// every write it would make.
struct BatchingI2c {
    writes: Vec<(u8, Vec<u8>)>,
}

impl DisplayInterface for BatchingI2c {
    type Error = core::convert::Infallible;

    fn command(&mut self, cmd: u8) -> Result<(), Self::Error> {
        self.writes.push((ADDR, i2c_command_frame(cmd)));
        Ok(())
    }

    fn commands(&mut self, cmds: &[u8]) -> Result<(), Self::Error> {
        for frame in i2c_frames(I2C_CONTROL_COMMAND, cmds) {
            self.writes.push((ADDR, frame));
        }
        Ok(())
    }

    fn data(&mut self, data: &[u8]) -> Result<(), Self::Error> {
        for frame in i2c_frames(I2C_CONTROL_DATA, data) {
            self.writes.push((ADDR, frame));
        }
        Ok(())
    }
}

struct Expected {
    width: u32,
    height: u32,
    clock_div_ratio: u8,
    multiplex: u8,
    com_pins: u8,
    contrast_internal: u8,
    contrast_external: u8,
}

const E128X64: Expected = Expected {
    width: 128,
    height: 64,
    clock_div_ratio: 0x80,
    multiplex: 0x3F,
    com_pins: 0x12,
    contrast_internal: 0xCF,
    contrast_external: 0x9F,
};

const E128X32: Expected = Expected {
    width: 128,
    height: 32,
    clock_div_ratio: 0x80,
    multiplex: 0x1F,
    com_pins: 0x02,
    contrast_internal: 0x8F,
    contrast_external: 0x8F,
};

const E96X16: Expected = Expected {
    width: 96,
    height: 16,
    clock_div_ratio: 0x60,
    multiplex: 0x0F,
    com_pins: 0x02,
    contrast_internal: 0x8F,
    contrast_external: 0x8F,
};

fn cmd(byte: u8) -> (u8, Vec<u8>) {
    (ADDR, vec![0x00, byte])
}

fn cmds(bytes: &[u8]) -> (u8, Vec<u8>) {
    let mut buf: Vec<u8> = vec![0x00];
    buf.extend_from_slice(bytes);
    (ADDR, buf)
}

fn with_display(size: DisplaySize, expected: &[(u8, Vec<u8>)], f: impl FnOnce(&mut Ssd1306<BatchingI2c>)) {
    let mut display = Ssd1306::new_without_reset(BatchingI2c { writes: Vec::new() }, size);
    f(&mut display);
    let (interface, _reset_pin) = display.release();
    assert_eq!(interface.writes, expected);
}

fn expected_contrast(e: &Expected, vcc: VccState) -> u8 {
    if vcc == VccState::External {
        e.contrast_external
    } else {
        e.contrast_internal
    }
}

fn init_writes(e: &Expected, vcc: VccState) -> Vec<(u8, Vec<u8>)> {
    let external: bool = vcc == VccState::External;
    vec![
        cmds(&[
            0xAE,
            0xD5,
            e.clock_div_ratio,
            0xA8,
            e.multiplex,
            0xD3,
            0x00,
            0x40,
            0x8D,
            if external { 0x10 } else { 0x14 },
            0x20,
            0x00,
            0xA1,
            0xC8,
            0xDA,
            e.com_pins,
            0x81,
            expected_contrast(e, vcc),
            0xD9,
            if external { 0x22 } else { 0xF1 },
            0xDB,
            0x40,
            0xA4,
            0xA6,
        ]),
        cmd(0xAF),
    ]
}

fn flush_writes(e: &Expected, first: usize, last: usize, data: &[u8]) -> Vec<(u8, Vec<u8>)> {
    let mut writes = vec![cmds(&[0x21, 0x00, (e.width - 1) as u8, 0x22, first as u8, last as u8])];
    writes.extend(data.chunks(128).map(|chunk| {
        let mut buf: Vec<u8> = vec![0x40];
        buf.extend_from_slice(chunk);
        (ADDR, buf)
    }));
    writes
}

fn check_batched_init(size: DisplaySize, e: &Expected, vcc: VccState) {
    with_display(size, &init_writes(e, vcc), |d| d.init(vcc, NO_RESET).unwrap());
}

fn check_dim(size: DisplaySize, e: &Expected, vcc: VccState) {
    let mut expected = init_writes(e, vcc);
    expected.push(cmds(&[0x81, 0x00]));
    expected.push(cmds(&[0x81, expected_contrast(e, vcc)]));
    with_display(size, &expected, |d| {
        d.init(vcc, NO_RESET).unwrap();
        d.dim(true).unwrap();
        d.dim(false).unwrap();
    });
}

fn check_dim_custom(size: DisplaySize, e: &Expected) {
    let mut expected = init_writes(e, VccState::SwitchCap);
    expected.push(cmds(&[0x81, 0x42]));
    expected.push(cmds(&[0x81, 0x00]));
    expected.push(cmds(&[0x81, 0x42]));
    with_display(size, &expected, |d| {
        d.init(VccState::SwitchCap, NO_RESET).unwrap();
        d.set_contrast(0x42).unwrap();
        d.dim(true).unwrap();
        d.dim(false).unwrap();
    });
}

fn check_flush(size: DisplaySize, e: &Expected) {
    let len: usize = (e.width * e.height / 8) as usize;
    let frame: Vec<u8> = (0..len).map(|i| i as u8).collect();
    let expected = flush_writes(e, 0, (e.height / 8 - 1) as usize, &frame);
    with_display(size, &expected, |d| {
        d.set_buffer(&frame).unwrap();
        d.flush().unwrap();
    });
}

fn check_flush_changed(size: DisplaySize, e: &Expected) {
    let width: usize = e.width as usize;
    let last: usize = (e.height / 8 - 1) as usize;
    let mut frame: Vec<u8> = vec![0u8; width * (last + 1)];

    // Unknown panel contents: the whole frame.
    let mut expected = flush_writes(e, 0, last, &frame);
    // Nothing changed: nothing is sent.
    // A pixel in the last page: only that page.
    frame[last * width + 5] = 0b0000_0010;
    expected.extend(flush_writes(e, last, last, &frame[last * width..]));
    // Changes in the first and last pages: every page between.
    frame[0] = 0b0000_0001;
    frame[last * width + 5] = 0;
    expected.extend(flush_writes(e, 0, last, &frame));
    // After init the panel's contents are unknown again.
    expected.extend(init_writes(e, VccState::SwitchCap));
    expected.extend(flush_writes(e, 0, last, &frame));

    with_display(size, &expected, |d| {
        d.flush_changed().unwrap();
        d.flush_changed().unwrap();
        d.set_pixel(5, e.height - 7, true);
        d.flush_changed().unwrap();
        d.set_pixel(0, 0, true);
        d.set_pixel(5, e.height - 7, false);
        d.flush_changed().unwrap();
        d.init(VccState::SwitchCap, NO_RESET).unwrap();
        d.flush_changed().unwrap();
    });
}

#[test]
fn batched_init_sequences() {
    for vcc in [VccState::SwitchCap, VccState::External] {
        check_batched_init(DisplaySize::Size128x64, &E128X64, vcc);
        check_batched_init(DisplaySize::Size128x32, &E128X32, vcc);
        check_batched_init(DisplaySize::Size96x16, &E96X16, vcc);
    }
}

#[test]
fn dim_restores_init_contrast_every_size() {
    for vcc in [VccState::SwitchCap, VccState::External] {
        check_dim(DisplaySize::Size128x64, &E128X64, vcc);
        check_dim(DisplaySize::Size128x32, &E128X32, vcc);
        check_dim(DisplaySize::Size96x16, &E96X16, vcc);
    }
}

#[test]
fn dim_restores_custom_contrast_every_size() {
    check_dim_custom(DisplaySize::Size128x64, &E128X64);
    check_dim_custom(DisplaySize::Size128x32, &E128X32);
    check_dim_custom(DisplaySize::Size96x16, &E96X16);
}

#[test]
fn flush_sends_batched_window_and_chunked_frame() {
    check_flush(DisplaySize::Size128x64, &E128X64);
    check_flush(DisplaySize::Size128x32, &E128X32);
    check_flush(DisplaySize::Size96x16, &E96X16);
}

#[test]
fn flush_changed_sends_only_changed_pages() {
    check_flush_changed(DisplaySize::Size128x64, &E128X64);
    check_flush_changed(DisplaySize::Size128x32, &E128X32);
    check_flush_changed(DisplaySize::Size96x16, &E96X16);
}

// A reset pin whose every operation fails.
struct FailingPin;

impl ErrorType for FailingPin {
    type Error = ErrorKind;
}

impl OutputPin for FailingPin {
    fn set_low(&mut self) -> Result<(), Self::Error> {
        Err(ErrorKind::Other)
    }

    fn set_high(&mut self) -> Result<(), Self::Error> {
        Err(ErrorKind::Other)
    }
}

// Drive the reset pulse the library lists, stopping at the first pin error
// (waits are skipped in tests).
fn pulse<P: OutputPin>(pin: &mut P) -> Result<(), P::Error> {
    for step in reset_pulse() {
        match step {
            ResetStep::High => pin.set_high()?,
            ResetStep::Low => pin.set_low()?,
            ResetStep::WaitMs(_) => {}
        }
    }
    Ok(())
}

#[test]
fn init_reports_reset_pin_error_without_touching_the_bus() {
    let interface = BatchingI2c { writes: Vec::new() };
    let mut display = Ssd1306::new_with_reset(interface, DisplaySize::Size128x32, FailingPin);

    let reset = match display.reset_pin_mut() {
        Some(pin) => pulse(pin),
        None => Ok(()),
    };
    let result = display.init(VccState::SwitchCap, reset);
    assert!(matches!(result, Err(InitError::Pin(ErrorKind::Other))));

    let (interface, _reset_pin) = display.release();
    assert!(interface.writes.is_empty());
}
