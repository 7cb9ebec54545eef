//! Physical display size variants and the register values that depend on them.
use vstd::prelude::*;

verus! {

/// Physical panel size.
#[derive(Debug, Clone, Copy, PartialEq, Eq, Structural)]
pub enum DisplaySize {
    /// 128x64 pixels (the most common SSD1306 module).
    Size128x64,
    /// 128x32 pixels.
    Size128x32,
    /// 96x16 pixels.
    Size96x16,
}

/// Register values that differ between panel sizes.
pub struct SizeParams {
    pub clock_div_ratio: u8,
    pub multiplex: u8,
    pub com_pins: u8,
    pub contrast_internal: u8,
    pub contrast_external: u8,
}

/// Width and height in pixels of a panel size.
pub open spec fn size_dimensions(size: DisplaySize) -> (u32, u32) {
    match size {
        DisplaySize::Size128x64 => (128, 64),
        DisplaySize::Size128x32 => (128, 32),
        DisplaySize::Size96x16 => (96, 16),
    }
}

/// The size-dependent register values of a panel size.
pub open spec fn size_params(size: DisplaySize) -> SizeParams {
    match size {
        DisplaySize::Size128x64 => SizeParams {
            clock_div_ratio: 0x80,
            multiplex: 0x3F,
            com_pins: 0x12,
            contrast_internal: 0xCF,
            contrast_external: 0x9F,
        },
        DisplaySize::Size128x32 => SizeParams {
            clock_div_ratio: 0x80,
            multiplex: 0x1F,
            com_pins: 0x02,
            contrast_internal: 0x8F,
            contrast_external: 0x8F,
        },
        DisplaySize::Size96x16 => SizeParams {
            clock_div_ratio: 0x60,
            multiplex: 0x0F,
            com_pins: 0x02,
            contrast_internal: 0x8F,
            contrast_external: 0x8F,
        },
    }
}

impl DisplaySize {
    /// Width and height in pixels.
    pub fn dimensions(&self) -> (r: (u32, u32))
        ensures
            r == size_dimensions(*self),
    {
        match self {
            DisplaySize::Size128x64 => (128, 64),
            DisplaySize::Size128x32 => (128, 32),
            DisplaySize::Size96x16 => (96, 16),
        }
    }

    /// The register values used by the initialization sequence.
    pub fn params(&self) -> (r: SizeParams)
        ensures
            r == size_params(*self),
    {
        match self {
            DisplaySize::Size128x64 => SizeParams {
                clock_div_ratio: 0x80,
                multiplex: 0x3F,
                com_pins: 0x12,
                contrast_internal: 0xCF,
                contrast_external: 0x9F,
            },
            DisplaySize::Size128x32 => SizeParams {
                clock_div_ratio: 0x80,
                multiplex: 0x1F,
                com_pins: 0x02,
                contrast_internal: 0x8F,
                contrast_external: 0x8F,
            },
            DisplaySize::Size96x16 => SizeParams {
                clock_div_ratio: 0x60,
                multiplex: 0x0F,
                com_pins: 0x02,
                contrast_internal: 0x8F,
                contrast_external: 0x8F,
            },
        }
    }
}

} // verus!
