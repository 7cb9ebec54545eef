//! Driver logic for SSD1306 monochrome OLED panels: frame-buffer packing,
//! the command sequences the controller expects, and transport framing.

pub mod command;
pub mod interface;
pub mod size;
pub mod status;

pub mod display;

pub use display::{
    initialization_commands, reset_pulse, BufferError, InitError, NoResetPin, ResetStep, Ssd1306,
    VccState,
};
pub use interface::{DisplayInterface, Transfer};
pub use size::DisplaySize;
