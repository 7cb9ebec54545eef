//! The SSD1306 driver: the in-memory frame buffer and the command sequences
//! sent through a [`DisplayInterface`].
use vstd::prelude::*;
use vstd::arithmetic::div_mod::{lemma_fundamental_div_mod, lemma_mod_pos_bound};
use crate::command::{
    CHARGEPUMP, COLUMNADDR, COMSCANDEC, DISPLAYALLON, DISPLAYALLON_RESUME, DISPLAYOFF, DISPLAYON,
    INVERTDISPLAY, MEMORYMODE, NORMALDISPLAY, PAGEADDR, SEGREMAP, SETCOMPINS, SETCONTRAST,
    SETDISPLAYCLOCKDIV, SETDISPLAYOFFSET, SETMULTIPLEX, SETPRECHARGE, SETSTARTLINE, SETVCOMDETECT,
};
use crate::interface::{delivered, failed_at, succeeded, DisplayInterface, Link, Transfer};
use crate::size::{size_dimensions, size_params, DisplaySize};

verus! {

/// Charge pump power source. Most breakout boards use `SwitchCap`.
#[derive(Debug, Clone, Copy, PartialEq, Eq, Structural)]
pub enum VccState {
    /// Display is powered from an external VCC supply.
    External,
    /// Display uses its internal charge pump (the common case).
    SwitchCap,
}

/// Stands for a reset line that isn't wired up: some boards tie reset to the
/// host's own reset and expose no separate pin.
#[derive(Debug, Default)]
pub struct NoResetPin;

/// Error returned by [`Ssd1306::set_buffer`] when the supplied slice doesn't
/// match the display's buffer size.
#[derive(Debug, Clone, Copy, PartialEq, Eq, Structural)]
pub enum BufferError {
    /// The supplied buffer had the wrong length.
    WrongSize {
        /// Expected length (`width * height / 8` bytes).
        expected: usize,
        /// Length actually supplied.
        actual: usize,
    },
}

/// Error returned by [`Ssd1306::init`]: the reset pulse failed on the reset
/// line (and nothing was sent), or the transport failed.
#[derive(Debug, PartialEq, Eq)]
pub enum InitError<PinError, BusError> {
    /// Driving the reset line failed.
    Pin(PinError),
    /// The transport failed.
    Interface(BusError),
}

/// The digit character for `d` (below 10).
pub open spec fn digit_char(d: nat) -> char {
    (48 + d) as char
}

/// `n` written in decimal.
pub open spec fn decimal(n: nat) -> Seq<char>
    decreases n,
{
    if n < 10 {
        seq![digit_char(n)]
    } else {
        decimal(n / 10).push(digit_char(n % 10))
    }
}

/// The number that the decimal digits `s` stand for.
pub open spec fn digits_value(s: Seq<char>) -> int
    decreases s.len(),
{
    if s.len() == 0 {
        0
    } else {
        digits_value(s.drop_last()) * 10 + (s.last() as int - 48)
    }
}

/// `decimal(n)` is made of the digits `0` to `9`, with no leading zero, and
/// reads back as `n`.
pub proof fn lemma_decimal_reads_back(n: nat)
    ensures
        decimal(n).len() > 0,
        forall|i: int| 0 <= i < decimal(n).len() ==> 48 <= (#[trigger] decimal(n)[i]) as int <= 57,
        decimal(n)[0] == '0' ==> n == 0,
        digits_value(decimal(n)) == n,
    decreases n,
{
    if n >= 10 {
        lemma_decimal_reads_back(n / 10);
        let head = decimal(n / 10);
        let s = decimal(n);
        assert(s.drop_last() =~= head);
        assert forall|i: int| 0 <= i < s.len() implies 48 <= (#[trigger] s[i]) as int <= 57 by {
            if i < head.len() {
                assert(s[i] == head[i]);
            }
        }
        assert(s[0] == head[0]);
        assert(s.last() as int == 48 + n % 10);
        assert(n == (n / 10) * 10 + n % 10);
        assert(digits_value(s) == digits_value(head) * 10 + (s.last() as int - 48));
    } else {
        assert(decimal(n).drop_last() =~= Seq::<char>::empty());
        assert(digits_value(decimal(n)) == digits_value(Seq::<char>::empty()) * 10 + (decimal(n).last() as int - 48));
    }
}

/// The message of a wrong-size buffer error.
pub open spec fn wrong_size_message(expected: nat, actual: nat) -> Seq<char> {
    "buffer has wrong size: expected "@ + decimal(expected) + " bytes, got "@ + decimal(actual)
}

impl BufferError {
    /// The error's message: "buffer has wrong size: expected {expected}
    /// bytes, got {actual}".
    pub fn message(&self) -> (m: String)
        ensures
            match *self {
                BufferError::WrongSize { expected, actual } => m@ == wrong_size_message(expected as nat, actual as nat),
            },
    {
        match self {
            BufferError::WrongSize { expected, actual } => {
                let mut m: String = String::from_str("buffer has wrong size: expected ");
                append_decimal(&mut m, *expected);
                m.append(" bytes, got ");
                append_decimal(&mut m, *actual);
                m
            },
        }
    }
}

/// The one-character string of digit `d`.
fn digit_str(d: usize) -> (s: &'static str)
    requires
        d < 10,
    ensures
        s@ == seq![digit_char(d as nat)],
{
    proof {
        reveal_strlit("0");
        reveal_strlit("1");
        reveal_strlit("2");
        reveal_strlit("3");
        reveal_strlit("4");
        reveal_strlit("5");
        reveal_strlit("6");
        reveal_strlit("7");
        reveal_strlit("8");
        reveal_strlit("9");
    }
    match d {
        0 => "0",
        1 => "1",
        2 => "2",
        3 => "3",
        4 => "4",
        5 => "5",
        6 => "6",
        7 => "7",
        8 => "8",
        _ => "9",
    }
}

/// Append `n` written in decimal to `s`.
fn append_decimal(s: &mut String, n: usize)
    ensures
        final(s)@ == old(s)@ + decimal(n as nat),
    decreases n,
{
    if n >= 10 {
        append_decimal(s, n / 10);
    }
    s.append(digit_str(n % 10));
    assert(decimal(n as nat) == if n < 10 { seq![digit_char(n as nat)] } else { decimal((n / 10) as nat).push(digit_char((n % 10) as nat)) });
}

/// One step of the reset pulse on the reset line.
#[derive(Debug, Clone, Copy, PartialEq, Eq, Structural)]
pub enum ResetStep {
    /// Drive the reset line high.
    High,
    /// Drive the reset line low.
    Low,
    /// Wait this many milliseconds.
    WaitMs(u32),
}

// ---------------------------------------------------------------------
// The model: panel geometry and the page-packed frame buffer.
// ---------------------------------------------------------------------

pub open spec fn panel_width(size: DisplaySize) -> nat {
    size_dimensions(size).0 as nat
}

pub open spec fn panel_height(size: DisplaySize) -> nat {
    size_dimensions(size).1 as nat
}

/// Number of 8-pixel-high pages.
pub open spec fn panel_pages(size: DisplaySize) -> nat {
    panel_height(size) / 8
}

/// Frame buffer length in bytes: one byte per column per page.
pub open spec fn frame_len(size: DisplaySize) -> nat {
    panel_width(size) * panel_pages(size)
}

/// Whether bit `bit` of `b` is set.
pub open spec fn bit_is_set(b: u8, bit: u8) -> bool {
    b & (1u8 << bit) != 0
}

/// `b` with bit `bit` set (`on`) or cleared.
pub open spec fn with_bit(b: u8, bit: u8, on: bool) -> u8 {
    if on {
        b | (1u8 << bit)
    } else {
        b & !(1u8 << bit)
    }
}

/// Index of the byte holding pixel `(x, y)`: each byte is a vertical run of
/// 8 pixels of one column, pages laid out one after another.
pub open spec fn pixel_index(width: nat, x: nat, y: nat) -> nat {
    (y / 8) * width + x
}

/// Whether pixel `(x, y)` is on in `frame` (least significant bit = top row
/// of the page).
pub open spec fn pixel_on(frame: Seq<u8>, width: nat, x: nat, y: nat) -> bool {
    bit_is_set(frame[pixel_index(width, x, y) as int], (y % 8) as u8)
}

/// `frame` with pixel `(x, y)` switched on or off.
pub open spec fn frame_with_pixel(frame: Seq<u8>, width: nat, x: nat, y: nat, on: bool) -> Seq<u8> {
    let i: int = pixel_index(width, x, y) as int;
    frame.update(i, with_bit(frame[i], (y % 8) as u8, on))
}

/// `frame` after drawing `pixels` in order: each point on the panel is
/// switched on or off, points off the panel are skipped.
pub open spec fn frame_after_drawing(size: DisplaySize, frame: Seq<u8>, pixels: Seq<(i32, i32, bool)>) -> Seq<u8>
    decreases pixels.len(),
{
    if pixels.len() == 0 {
        frame
    } else {
        let before = frame_after_drawing(size, frame, pixels.drop_last());
        let p = pixels.last();
        if on_panel(size, p.0 as int, p.1 as int) {
            frame_with_pixel(before, panel_width(size), p.0 as nat, p.1 as nat, p.2)
        } else {
            before
        }
    }
}

/// Whether `(x, y)` lies on a panel of size `size`.
pub open spec fn on_panel(size: DisplaySize, x: int, y: int) -> bool {
    0 <= x < panel_width(size) && 0 <= y < panel_height(size)
}

pub struct Ssd1306<I: DisplayInterface, RST = NoResetPin> {
    interface: Link<I>,
    reset_pin: Option<RST>,
    size: DisplaySize,
    width: u32,
    height: u32,
    pages: usize,
    buffer: Vec<u8>,
    vcc_state: VccState,
    contrast: u8,
    shown: Option<Vec<u8>>,
}

impl<I: DisplayInterface, RST> Ssd1306<I, RST> {
    /// The cached geometry agrees with the panel size and the buffer holds
    /// exactly one frame.
    pub closed spec fn wf(&self) -> bool {
        &&& self.width as nat == panel_width(self.size)
        &&& self.height as nat == panel_height(self.size)
        &&& self.pages as nat == panel_pages(self.size)
        &&& self.buffer@.len() == frame_len(self.size)
        &&& self.shown matches Some(v) ==> v@.len() == frame_len(self.size)
    }

    /// The panel size the driver was created for.
    pub closed spec fn panel(&self) -> DisplaySize {
        self.size
    }

    /// The in-memory frame buffer.
    pub closed spec fn frame(&self) -> Seq<u8> {
        self.buffer@
    }

    /// The power source the next sequences are computed for.
    pub closed spec fn vcc(&self) -> VccState {
        self.vcc_state
    }

    /// The contrast that undimming restores: the last one set by
    /// [`Ssd1306::init`] or [`Ssd1306::set_contrast`]; before either, the
    /// normal level for the internal charge pump, 0xCF.
    pub closed spec fn contrast_level(&self) -> u8 {
        self.contrast
    }

    /// The frame known to be on the panel, if any: what the last successful
    /// flush sent, until something makes the panel's contents unknown.
    pub closed spec fn panel_contents(&self) -> Option<Seq<u8>> {
        match self.shown {
            Some(v) => Some(v@),
            None => None,
        }
    }

    /// The transport.
    pub closed spec fn transport(&self) -> I {
        self.interface.transport()
    }

    /// Every call this driver made on its transport, in order, with whether
    /// it succeeded.
    pub closed spec fn transfers(&self) -> Seq<(Transfer, Result<(), I::Error>)> {
        self.interface.history()
    }

    /// The reset line, if one was configured.
    pub closed spec fn reset_line(&self) -> Option<RST> {
        self.reset_pin
    }

    /// Whether pixel `(x, y)` is on in the frame buffer.
    pub open spec fn pixel(&self, x: int, y: int) -> bool {
        on_panel(self.panel(), x, y) && pixel_on(self.frame(), panel_width(self.panel()), x as nat, y as nat)
    }
}


// ---------------------------------------------------------------------
// Command sequences.
// ---------------------------------------------------------------------

/// The power-on register sequence for a panel size and power source.
pub open spec fn init_bytes(size: DisplaySize, vcc: VccState) -> Seq<u8> {
    let p = size_params(size);
    let external = vcc == VccState::External;
    seq![
        DISPLAYOFF,
        SETDISPLAYCLOCKDIV,
        p.clock_div_ratio,
        SETMULTIPLEX,
        p.multiplex,
        SETDISPLAYOFFSET,
        0x00u8,
        SETSTARTLINE,
        CHARGEPUMP,
        if external { 0x10u8 } else { 0x14u8 },
        MEMORYMODE,
        0x00u8,
        SEGREMAP | 0x01u8,
        COMSCANDEC,
        SETCOMPINS,
        p.com_pins,
        SETCONTRAST,
        init_contrast(size, vcc),
        SETPRECHARGE,
        if external { 0x22u8 } else { 0xF1u8 },
        SETVCOMDETECT,
        0x40u8,
        DISPLAYALLON_RESUME,
        NORMALDISPLAY,
    ]
}

/// The contrast the initialization sequence sets for a panel size and
/// power source.
pub open spec fn init_contrast(size: DisplaySize, vcc: VccState) -> u8 {
    if vcc == VccState::External {
        size_params(size).contrast_external
    } else {
        size_params(size).contrast_internal
    }
}

/// The address window covering all columns and pages `first..=last`.
pub open spec fn page_window(size: DisplaySize, first: nat, last: nat) -> Seq<u8> {
    seq![COLUMNADDR, 0u8, (panel_width(size) - 1) as u8, PAGEADDR, first as u8, last as u8]
}

/// The address window that precedes a full-frame transfer: all columns,
/// all pages.
pub open spec fn flush_window(size: DisplaySize) -> Seq<u8> {
    page_window(size, 0, (panel_pages(size) - 1) as nat)
}

/// One call of the transport's `commands` with `bytes`.
pub open spec fn batch(bytes: Seq<u8>) -> Seq<Transfer> {
    seq![Transfer::Commands(bytes)]
}

/// What [`Ssd1306::flush`] hands to the transport: the full window as one
/// command sequence, then the whole frame as data.
pub open spec fn flush_plan(size: DisplaySize, frame: Seq<u8>) -> Seq<Transfer> {
    batch(flush_window(size)).push(Transfer::Data(frame))
}

/// The bytes of page `p` in `frame`.
pub open spec fn page_bytes(frame: Seq<u8>, width: nat, p: nat) -> Seq<u8> {
    frame.subrange((p * width) as int, ((p + 1) * width) as int)
}

/// Whether page `p` differs between `a` and `b`.
pub open spec fn page_changed(a: Seq<u8>, b: Seq<u8>, width: nat, p: nat) -> bool {
    page_bytes(a, width, p) != page_bytes(b, width, p)
}

/// The first page from `p` on (below `n`) that differs, or `n` if none does.
pub open spec fn first_changed_page(a: Seq<u8>, b: Seq<u8>, width: nat, p: nat, n: nat) -> nat
    decreases n - p,
{
    if p >= n {
        n
    } else if page_changed(a, b, width, p) {
        p
    } else {
        first_changed_page(a, b, width, p + 1, n)
    }
}

/// The last page below `q` that differs, or -1 if none does.
pub open spec fn last_changed_page(a: Seq<u8>, b: Seq<u8>, width: nat, q: nat) -> int
    decreases q,
{
    if q == 0 {
        -1
    } else if page_changed(a, b, width, (q - 1) as nat) {
        q - 1
    } else {
        last_changed_page(a, b, width, (q - 1) as nat)
    }
}

/// What [`Ssd1306::flush_changed`] hands to the transport: everything when
/// the panel's contents are unknown; nothing when no page changed; otherwise
/// the window of the pages from the first to the last changed one, then
/// their bytes.
pub open spec fn flush_changed_plan(size: DisplaySize, shown: Option<Seq<u8>>, frame: Seq<u8>) -> Seq<Transfer> {
    let w = panel_width(size);
    let n = panel_pages(size);
    match shown {
        None => flush_plan(size, frame),
        Some(old_frame) => {
            let first = first_changed_page(old_frame, frame, w, 0, n);
            if first >= n {
                Seq::empty()
            } else {
                let last = last_changed_page(old_frame, frame, w, n) as nat;
                batch(page_window(size, first, last)).push(
                    Transfer::Data(frame.subrange((first * w) as int, ((last + 1) * w) as int)),
                )
            }
        },
    }
}

/// The contrast `dim` sends: zero when dimmed, else the remembered level.
pub open spec fn dim_contrast(dim: bool, level: u8) -> u8 {
    if dim {
        0
    } else {
        level
    }
}

/// The transport's part of an `init` result: `Ok` or the transport's error.
pub open spec fn bus_outcome<P, E>(r: Result<(), InitError<P, E>>) -> Result<(), E> {
    match r {
        Ok(()) => Ok(()),
        Err(InitError::Interface(e)) => Err(e),
        Err(InitError::Pin(_)) => Ok(()),
    }
}

/// The reset pulse: high, 1 ms, low for 10 ms, then high again.
pub open spec fn reset_steps() -> Seq<ResetStep> {
    seq![ResetStep::High, ResetStep::WaitMs(1), ResetStep::Low, ResetStep::WaitMs(10), ResetStep::High]
}

/// The register sequence [`Ssd1306::init`] sends for a panel size and power source.
pub fn initialization_commands(size: DisplaySize, vcc: VccState) -> (cmds: Vec<u8>)
    ensures
        cmds@ == init_bytes(size, vcc),
{
    let p = size.params();
    let external: bool = matches!(vcc, VccState::External);
    let cmds: Vec<u8> = vec![
        DISPLAYOFF,
        SETDISPLAYCLOCKDIV,
        p.clock_div_ratio,
        SETMULTIPLEX,
        p.multiplex,
        SETDISPLAYOFFSET,
        0x00u8,
        SETSTARTLINE,
        CHARGEPUMP,
        if external { 0x10u8 } else { 0x14u8 },
        MEMORYMODE,
        0x00u8,
        SEGREMAP | 0x01u8,
        COMSCANDEC,
        SETCOMPINS,
        p.com_pins,
        SETCONTRAST,
        if external { p.contrast_external } else { p.contrast_internal },
        SETPRECHARGE,
        if external { 0x22u8 } else { 0xF1u8 },
        SETVCOMDETECT,
        0x40u8,
        DISPLAYALLON_RESUME,
        NORMALDISPLAY,
    ];
    assert(cmds@ =~= init_bytes(size, vcc));
    cmds
}

/// The reset pulse to drive on a wired reset line, in order.
pub fn reset_pulse() -> (steps: Vec<ResetStep>)
    ensures
        steps@ == reset_steps(),
{
    let steps: Vec<ResetStep> = vec![
        ResetStep::High,
        ResetStep::WaitMs(1),
        ResetStep::Low,
        ResetStep::WaitMs(10),
        ResetStep::High,
    ];
    assert(steps@ =~= reset_steps());
    steps
}

// ---------------------------------------------------------------------
// Lemmas.
// ---------------------------------------------------------------------

proof fn lemma_panel_geometry(size: DisplaySize)
    ensures
        panel_width(size) == 128 || panel_width(size) == 96,
        panel_height(size) == panel_pages(size) * 8,
        1 <= panel_pages(size) <= 8,
        frame_len(size) == panel_width(size) * panel_pages(size),
        frame_len(size) <= 1024,
{
    match size {
        DisplaySize::Size128x64 => {},
        DisplaySize::Size128x32 => {},
        DisplaySize::Size96x16 => {},
    }
}

/// Pixel `(x, y)` of the panel lives at an index inside the frame, and no
/// two pixels of different bytes share it.
proof fn lemma_pixel_index_bounds(size: DisplaySize, x: nat, y: nat)
    requires
        on_panel(size, x as int, y as int),
    ensures
        pixel_index(panel_width(size), x, y) < frame_len(size),
{
    lemma_panel_geometry(size);
    let w: nat = panel_width(size);
    let p: nat = panel_pages(size);
    assert((y / 8) * w + x < p * w) by (nonlinear_arith)
        requires
            y < p * 8,
            x < w,
    {
        assert(y / 8 < p);
        assert((y / 8) * w + w <= p * w);
    }
}

proof fn lemma_pixel_index_injective(w: nat, x1: nat, y1: nat, x2: nat, y2: nat)
    requires
        x1 < w,
        x2 < w,
        pixel_index(w, x1, y1) == pixel_index(w, x2, y2),
    ensures
        x1 == x2,
        y1 / 8 == y2 / 8,
{
    let p1: nat = y1 / 8;
    let p2: nat = y2 / 8;
    assert(p1 == p2 && x1 == x2) by (nonlinear_arith)
        requires
            x1 < w,
            x2 < w,
            p1 * w + x1 == p2 * w + x2,
    {
        if p1 < p2 {
            assert(p1 * w + w <= p2 * w);
        } else if p2 < p1 {
            assert(p2 * w + w <= p1 * w);
        }
    }
}

proof fn lemma_with_bit(b: u8, k: u8, j: u8, on: bool)
    requires
        k < 8,
        j < 8,
    ensures
        bit_is_set(with_bit(b, k, on), k) == on,
        j != k ==> bit_is_set(with_bit(b, k, on), j) == bit_is_set(b, j),
{
    if on {
        assert((b | (1u8 << k)) & (1u8 << k) != 0) by (bit_vector)
            requires k < 8;
        assert(j != k ==> (((b | (1u8 << k)) & (1u8 << j) != 0) == (b & (1u8 << j) != 0))) by (bit_vector)
            requires k < 8, j < 8;
    } else {
        assert((b & !(1u8 << k)) & (1u8 << k) == 0) by (bit_vector)
            requires k < 8;
        assert(j != k ==> (((b & !(1u8 << k)) & (1u8 << j) != 0) == (b & (1u8 << j) != 0))) by (bit_vector)
            requires k < 8, j < 8;
    }
}

proof fn lemma_delivered_then<E>(
    before: Seq<(Transfer, Result<(), E>)>,
    mid: Seq<(Transfer, Result<(), E>)>,
    after: Seq<(Transfer, Result<(), E>)>,
    first: Seq<Transfer>,
    second: Seq<Transfer>,
    outcome: Result<(), E>,
)
    requires
        delivered(before, mid, first, Ok::<(), E>(())),
        delivered(mid, after, second, outcome),
    ensures
        delivered(before, after, first + second, outcome),
{
    match outcome {
        Ok(()) => {
            assert(succeeded::<E>(first + second) =~= succeeded::<E>(first) + succeeded::<E>(second));
            assert(after =~= before + succeeded::<E>(first + second));
        },
        Err(e) => {
            let k: int = choose|k: int| 0 <= k < second.len() && after == mid + #[trigger] failed_at(second, k, e);
            let whole = first + second;
            assert(whole.take(first.len() + k) =~= first + second.take(k));
            assert(succeeded::<E>(whole.take(first.len() + k)) =~= succeeded::<E>(first) + succeeded::<E>(second.take(k)));
            assert(failed_at(whole, first.len() + k, e) =~= succeeded::<E>(first) + failed_at(second, k, e));
            assert(after =~= before + failed_at(whole, first.len() + k, e));
        },
    }
}

proof fn lemma_delivered_stopped<E>(
    before: Seq<(Transfer, Result<(), E>)>,
    after: Seq<(Transfer, Result<(), E>)>,
    first: Seq<Transfer>,
    second: Seq<Transfer>,
    e: E,
)
    requires
        delivered(before, after, first, Err::<(), E>(e)),
    ensures
        delivered(before, after, first + second, Err::<(), E>(e)),
{
    let k: int = choose|k: int| 0 <= k < first.len() && after == before + #[trigger] failed_at(first, k, e);
    assert((first + second).take(k) =~= first.take(k));
    assert(failed_at(first + second, k, e) =~= failed_at(first, k, e));
}

/// A single transfer carried out is the plan of that one transfer delivered.
proof fn lemma_delivered_single<E>(before: Seq<(Transfer, Result<(), E>)>, t: Transfer, outcome: Result<(), E>)
    ensures
        delivered(before, before.push((t, outcome)), seq![t], outcome),
{
    let plan = seq![t];
    match outcome {
        Ok(u) => {
            assert(u == ());
            assert(outcome == Ok::<(), E>(()));
            assert(succeeded::<E>(plan)[0] == (t, Ok::<(), E>(())));
            assert(before.push((t, outcome)) =~= before + succeeded::<E>(plan));
        },
        Err(e) => {
            assert(plan.take(0) =~= Seq::<Transfer>::empty());
            assert(before.push((t, outcome)) =~= before + failed_at(plan, 0, e));
        },
    }
}

// ---------------------------------------------------------------------
// The driver.
// ---------------------------------------------------------------------

impl<I: DisplayInterface, RST> Ssd1306<I, RST> {
    /// `self` and `other` differ at most in their frame buffer.
    pub open spec fn same_but_frame(&self, other: &Self) -> bool {
        &&& self.panel() == other.panel()
        &&& self.vcc() == other.vcc()
        &&& self.transport() == other.transport()
        &&& self.transfers() == other.transfers()
        &&& self.reset_line() == other.reset_line()
        &&& self.contrast_level() == other.contrast_level()
        &&& self.panel_contents() == other.panel_contents()
    }

    /// `self` and `other` differ at most in what went over the transport.
    pub open spec fn same_but_traffic(&self, other: &Self) -> bool {
        &&& self.panel() == other.panel()
        &&& self.vcc() == other.vcc()
        &&& self.frame() == other.frame()
        &&& self.reset_line() == other.reset_line()
        &&& self.contrast_level() == other.contrast_level()
        &&& self.panel_contents() == other.panel_contents()
    }

    fn new(interface: I, size: DisplaySize, reset_pin: Option<RST>) -> (r: Self)
        ensures
            r.wf(),
            r.panel() == size,
            r.frame() == Seq::new(frame_len(size), |i: int| 0u8),
            r.vcc() == VccState::SwitchCap,
            r.contrast_level() == 0xCFu8,
            r.panel_contents() == None::<Seq<u8>>,
            r.transport() == interface,
            r.transfers() == Seq::<(Transfer, Result<(), I::Error>)>::empty(),
            r.reset_line() == reset_pin,
    {
        let (width, height): (u32, u32) = size.dimensions();
        proof {
            lemma_panel_geometry(size);
        }
        let pages: usize = (height / 8) as usize;
        let buffer: Vec<u8> = vec![0u8; width as usize * pages];
        let contrast: u8 = 0xCF;
        let r = Ssd1306 {
            interface: Link::new(interface),
            reset_pin,
            size,
            width,
            height,
            pages,
            buffer,
            vcc_state: VccState::SwitchCap,
            contrast,
            shown: None,
        };
        assert(r.buffer@ =~= Seq::new(frame_len(size), |i: int| 0u8));
        r
    }

    /// Consume the driver and return the transport and the reset pin, if
    /// one was configured.
    pub fn release(self) -> (r: (I, Option<RST>))
        ensures
            r.0 == self.transport(),
            r.1 == self.reset_line(),
    {
        (self.interface.into_inner(), self.reset_pin)
    }

    /// Display width in pixels.
    pub fn width(&self) -> (w: u32)
        requires
            self.wf(),
        ensures
            w as nat == panel_width(self.panel()),
    {
        self.width
    }

    /// Display height in pixels.
    pub fn height(&self) -> (h: u32)
        requires
            self.wf(),
        ensures
            h as nat == panel_height(self.panel()),
    {
        self.height
    }

    /// Zero the in-memory frame buffer. Call [`Ssd1306::flush`] afterwards
    /// to clear the physical display.
    pub fn clear(&mut self)
        requires
            old(self).wf(),
        ensures
            final(self).wf(),
            final(self).same_but_frame(&*old(self)),
            final(self).frame() == Seq::new(frame_len(old(self).panel()), |i: int| 0u8),
            forall|x: int, y: int| !#[trigger] final(self).pixel(x, y),
    {
        let n: usize = self.buffer.len();
        let mut i: usize = 0;
        while i < n
            invariant
                self.wf(),
                self.same_but_frame(&*old(self)),
                n == self.buffer@.len(),
                i <= n,
                forall|j: int| 0 <= j < i ==> self.buffer@[j] == 0u8,
            decreases n - i,
        {
            self.buffer.set(i, 0u8);
            i = i + 1;
        }
        assert(self.buffer@ =~= Seq::new(frame_len(old(self).panel()), |i: int| 0u8));
        assert forall|x: int, y: int| !#[trigger] self.pixel(x, y) by {
            if on_panel(self.size, x, y) {
                lemma_pixel_index_bounds(self.size, x as nat, y as nat);
                let bit: u8 = (y % 8) as u8;
                assert(0u8 & (1u8 << bit) == 0) by (bit_vector);
            }
        }
    }

    /// Set (or clear) a single pixel in the frame buffer; pixels off the
    /// panel are ignored. Call [`Ssd1306::flush`] to send the change.
    pub fn set_pixel(&mut self, x: u32, y: u32, on: bool)
        requires
            old(self).wf(),
        ensures
            final(self).wf(),
            final(self).same_but_frame(&*old(self)),
            final(self).frame() == if on_panel(old(self).panel(), x as int, y as int) {
                frame_with_pixel(old(self).frame(), panel_width(old(self).panel()), x as nat, y as nat, on)
            } else {
                old(self).frame()
            },
    {
        if x >= self.width || y >= self.height {
            return;
        }
        proof {
            lemma_panel_geometry(self.size);
            lemma_pixel_index_bounds(self.size, x as nat, y as nat);
        }
        let page: usize = (y / 8) as usize;
        let bit: u8 = (y % 8) as u8;
        let index: usize = page * self.width as usize + x as usize;
        let old_byte: u8 = self.buffer[index];
        let new_byte: u8 = if on {
            old_byte | (1u8 << bit)
        } else {
            old_byte & !(1u8 << bit)
        };
        self.buffer.set(index, new_byte);
    }

    /// Read back whether a pixel in the frame buffer is set; pixels off the
    /// panel read as off.
    pub fn get_pixel(&self, x: u32, y: u32) -> (on: bool)
        requires
            self.wf(),
        ensures
            on == self.pixel(x as int, y as int),
    {
        if x >= self.width || y >= self.height {
            return false;
        }
        proof {
            lemma_panel_geometry(self.size);
            lemma_pixel_index_bounds(self.size, x as nat, y as nat);
        }
        let page: usize = (y / 8) as usize;
        let bit: u8 = (y % 8) as u8;
        let index: usize = page * self.width as usize + x as usize;
        self.buffer[index] & (1u8 << bit) != 0
    }

    /// Switch pixel `(x, y)` in signed coordinates, as drawing libraries hand
    /// them over: points left of or above the panel are ignored, like those
    /// past its right or bottom edge.
    pub fn draw_pixel(&mut self, x: i32, y: i32, on: bool)
        requires
            old(self).wf(),
        ensures
            final(self).wf(),
            final(self).same_but_frame(&*old(self)),
            final(self).frame() == if on_panel(old(self).panel(), x as int, y as int) {
                frame_with_pixel(old(self).frame(), panel_width(old(self).panel()), x as nat, y as nat, on)
            } else {
                old(self).frame()
            },
    {
        if x >= 0 && y >= 0 {
            self.set_pixel(x as u32, y as u32, on);
        }
    }

    /// Draw a run of pixels in signed coordinates, in order, each as
    /// [`Ssd1306::draw_pixel`] would: points off the panel are skipped.
    /// Nothing is sent to the transport.
    pub fn draw_pixels(&mut self, pixels: &[(i32, i32, bool)])
        requires
            old(self).wf(),
        ensures
            final(self).wf(),
            final(self).same_but_frame(&*old(self)),
            final(self).frame() == frame_after_drawing(old(self).panel(), old(self).frame(), pixels@),
    {
        let mut i: usize = 0;
        while i < pixels.len()
            invariant
                i <= pixels@.len(),
                self.wf(),
                self.same_but_frame(&*old(self)),
                self.frame() == frame_after_drawing(old(self).panel(), old(self).frame(), pixels@.take(i as int)),
            decreases pixels@.len() - i,
        {
            let (x, y, on): (i32, i32, bool) = pixels[i];
            self.draw_pixel(x, y, on);
            assert(pixels@.take(i + 1).drop_last() =~= pixels@.take(i as int));
            i = i + 1;
        }
        assert(pixels@.take(pixels@.len() as int) =~= pixels@);
    }

    /// Overwrite the whole frame buffer with already page-packed data
    /// (`width * height / 8` bytes, the layout the display expects on the
    /// wire).
    pub fn set_buffer(&mut self, data: &[u8]) -> (r: Result<(), BufferError>)
        requires
            old(self).wf(),
        ensures
            final(self).wf(),
            final(self).same_but_frame(&*old(self)),
            r is Ok <==> data@.len() == frame_len(old(self).panel()),
            r is Ok ==> final(self).frame() == data@,
            r matches Err(BufferError::WrongSize { expected, actual }) ==> {
                &&& expected == frame_len(old(self).panel())
                &&& actual == data@.len()
                &&& final(self).frame() == old(self).frame()
            },
    {
        if data.len() != self.buffer.len() {
            return Err(BufferError::WrongSize { expected: self.buffer.len(), actual: data.len() });
        }
        let n: usize = data.len();
        let mut i: usize = 0;
        while i < n
            invariant
                self.wf(),
                self.same_but_frame(&*old(self)),
                n == data@.len(),
                n == self.buffer@.len(),
                i <= n,
                forall|j: int| 0 <= j < i ==> self.buffer@[j] == data@[j],
            decreases n - i,
        {
            self.buffer.set(i, data[i]);
            i = i + 1;
        }
        assert(self.buffer@ =~= data@);
        Ok(())
    }

    /// Borrow the raw frame buffer.
    pub fn buffer(&self) -> (b: &[u8])
        requires
            self.wf(),
        ensures
            b@ == self.frame(),
            b@.len() == frame_len(self.panel()),
    {
        self.buffer.as_slice()
    }

    /// Mutably borrow the raw frame buffer for direct manipulation.
    pub fn buffer_mut(&mut self) -> (b: &mut [u8])
        requires
            old(self).wf(),
        ensures
            b@ == old(self).frame(),
            final(self).frame() == final(b)@,
            final(self).wf(),
            final(self).same_but_frame(&*old(self)),
    {
        frame_slice(&mut self.buffer)
    }

    /// The reset line, for driving the reset pulse.
    pub fn reset_pin_mut(&mut self) -> (pin: Option<&mut RST>)
        requires
            old(self).wf(),
        ensures
            pin is Some <==> old(self).reset_line() is Some,
            pin matches Some(p) ==> *p == old(self).reset_line()->0 && final(self).reset_line() == Some(*final(p)),
            final(self).wf(),
            final(self).panel() == old(self).panel(),
            final(self).frame() == old(self).frame(),
            old(self).reset_line() is None ==> final(self).reset_line() is None,
            final(self).vcc() == old(self).vcc(),
            final(self).transport() == old(self).transport(),
            final(self).contrast_level() == old(self).contrast_level(),
            final(self).panel_contents() == old(self).panel_contents(),
    {
        self.reset_pin.as_mut()
    }
}

/// `Vec::as_mut_slice`: the slice views the whole vector; whatever is
/// written through it is what the vector holds afterwards, and its length
/// cannot change through a slice.
#[verifier::external_body]
fn frame_slice(v: &mut Vec<u8>) -> (s: &mut [u8])
    ensures
        s@ == old(v)@,
        final(s)@ == final(v)@,
        final(v)@.len() == old(v)@.len(),
{
    v.as_mut_slice()
}


impl<I: DisplayInterface> Ssd1306<I, NoResetPin> {
    /// Create a driver for a display whose reset line isn't connected to a
    /// controllable pin.
    pub fn new_without_reset(interface: I, size: DisplaySize) -> (r: Self)
        ensures
            r.wf(),
            r.panel() == size,
            r.frame() == Seq::new(frame_len(size), |i: int| 0u8),
            r.vcc() == VccState::SwitchCap,
            r.contrast_level() == 0xCFu8,
            r.panel_contents() == None::<Seq<u8>>,
            r.transport() == interface,
            r.transfers() == Seq::<(Transfer, Result<(), I::Error>)>::empty(),
            r.reset_line() == None::<NoResetPin>,
    {
        Self::new(interface, size, None)
    }
}

impl<I: DisplayInterface, RST> Ssd1306<I, RST> {
    /// Create a driver with a reset pin wired up.
    pub fn new_with_reset(interface: I, size: DisplaySize, reset_pin: RST) -> (r: Self)
        ensures
            r.wf(),
            r.panel() == size,
            r.frame() == Seq::new(frame_len(size), |i: int| 0u8),
            r.vcc() == VccState::SwitchCap,
            r.contrast_level() == 0xCFu8,
            r.panel_contents() == None::<Seq<u8>>,
            r.transport() == interface,
            r.transfers() == Seq::<(Transfer, Result<(), I::Error>)>::empty(),
            r.reset_line() == Some(reset_pin),
    {
        Self::new(interface, size, Some(reset_pin))
    }

    fn send_command(&mut self, cmd: u8) -> (r: Result<(), I::Error>)
        requires
            old(self).wf(),
        ensures
            final(self).wf(),
            final(self).same_but_traffic(&*old(self)),
            final(self).transfers() == old(self).transfers().push((Transfer::Command(cmd), r)),
    {
        self.interface.command(cmd)
    }

    fn send_commands(&mut self, cmds: &[u8]) -> (r: Result<(), I::Error>)
        requires
            old(self).wf(),
        ensures
            final(self).wf(),
            final(self).same_but_traffic(&*old(self)),
            delivered(old(self).transfers(), final(self).transfers(), batch(cmds@), r),
    {
        let ghost before = self.transfers();
        let r = self.interface.commands(cmds);
        proof {
            lemma_delivered_single(before, Transfer::Commands(cmds@), r);
        }
        r
    }

    /// Send the window of pages `first..=last`, then their bytes.
    fn send_pages(&mut self, first: usize, last: usize) -> (r: Result<(), I::Error>)
        requires
            old(self).wf(),
            first <= last < panel_pages(old(self).panel()),
        ensures
            final(self).wf(),
            final(self).same_but_traffic(&*old(self)),
            delivered(
                old(self).transfers(),
                final(self).transfers(),
                batch(page_window(old(self).panel(), first as nat, last as nat)).push(
                    Transfer::Data(
                        old(self).frame().subrange(
                            (first * panel_width(old(self).panel())) as int,
                            ((last + 1) * panel_width(old(self).panel())) as int,
                        ),
                    ),
                ),
                r,
            ),
    {
        proof {
            lemma_panel_geometry(self.size);
            lemma_page_span(self.size, first as nat, last as nat);
        }
        let window: Vec<u8> = vec![
            COLUMNADDR,
            0u8,
            (self.width - 1) as u8,
            PAGEADDR,
            first as u8,
            last as u8,
        ];
        assert(window@ =~= page_window(self.size, first as nat, last as nat));
        let start: usize = first * self.width as usize;
        let end: usize = (last + 1) * self.width as usize;
        let ghost bytes = self.buffer@.subrange(start as int, end as int);
        let ghost before = self.transfers();
        let ghost data = seq![Transfer::Data(bytes)];
        assert(batch(window@).push(Transfer::Data(bytes)) =~= batch(window@) + data);
        match self.send_commands(window.as_slice()) {
            Ok(()) => {},
            Err(e) => {
                proof {
                    lemma_delivered_stopped(before, self.transfers(), batch(window@), data, e);
                }
                return Err(e);
            },
        }
        let ghost mid = self.transfers();
        let r = self.interface.data(&self.buffer.as_slice()[start..end]);
        proof {
            lemma_delivered_single(mid, Transfer::Data(bytes), r);
            lemma_delivered_then(before, mid, self.transfers(), batch(window@), data, r);
        }
        r
    }

    /// Push the in-memory frame buffer to the physical display: the address
    /// window covering the whole panel as one command sequence, then the
    /// frame. On success the panel is known to show the frame; on failure
    /// its contents are unknown.
    pub fn flush(&mut self) -> (r: Result<(), I::Error>)
        requires
            old(self).wf(),
        ensures
            final(self).wf(),
            final(self).panel() == old(self).panel(),
            final(self).vcc() == old(self).vcc(),
            final(self).frame() == old(self).frame(),
            final(self).reset_line() == old(self).reset_line(),
            final(self).contrast_level() == old(self).contrast_level(),
            final(self).panel_contents() == if r is Ok { Some(old(self).frame()) } else { None },
            delivered(old(self).transfers(), final(self).transfers(), flush_plan(old(self).panel(), old(self).frame()), r),
    {
        proof {
            lemma_panel_geometry(self.size);
        }
        let last: usize = self.pages - 1;
        proof {
            assert((last + 1) * panel_width(self.size) == frame_len(self.size));
            assert(self.buffer@.subrange(0, ((last + 1) * panel_width(self.size)) as int) =~= self.buffer@);
        }
        let r = self.send_pages(0, last);
        self.shown = match r {
            Ok(()) => Some(copy_frame(&self.buffer)),
            Err(_) => None,
        };
        r
    }

    /// Push only what changed since the panel's contents were last known:
    /// the whole frame when they are unknown (new driver, after `init` or a
    /// failed transfer), nothing when no page changed, otherwise the pages
    /// from the first to the last changed one.
    pub fn flush_changed(&mut self) -> (r: Result<(), I::Error>)
        requires
            old(self).wf(),
        ensures
            final(self).wf(),
            final(self).panel() == old(self).panel(),
            final(self).vcc() == old(self).vcc(),
            final(self).frame() == old(self).frame(),
            final(self).reset_line() == old(self).reset_line(),
            final(self).contrast_level() == old(self).contrast_level(),
            final(self).panel_contents() == if r is Ok { Some(old(self).frame()) } else { None },
            delivered(
                old(self).transfers(),
                final(self).transfers(),
                flush_changed_plan(old(self).panel(), old(self).panel_contents(), old(self).frame()),
                r,
            ),
    {
        if self.shown.is_none() {
            return self.flush();
        }
        let (first, last): (usize, usize) = self.changed_pages();
        if first == self.pages {
            self.shown = Some(copy_frame(&self.buffer));
            assert(self.transfers() =~= old(self).transfers() + succeeded(Seq::<Transfer>::empty()));
            return Ok(());
        }
        let r = self.send_pages(first, last);
        self.shown = match r {
            Ok(()) => Some(copy_frame(&self.buffer)),
            Err(_) => None,
        };
        r
    }

    /// Clear the panel and put it to sleep: zero the frame buffer, flush it,
    /// then turn the panel off, stopping at the first failure.
    pub fn blank_and_sleep(&mut self) -> (r: Result<(), I::Error>)
        requires
            old(self).wf(),
        ensures
            final(self).wf(),
            final(self).panel() == old(self).panel(),
            final(self).vcc() == old(self).vcc(),
            final(self).reset_line() == old(self).reset_line(),
            final(self).contrast_level() == old(self).contrast_level(),
            final(self).frame() == Seq::new(frame_len(old(self).panel()), |i: int| 0u8),
            r is Ok ==> final(self).panel_contents() == Some(final(self).frame()),
            final(self).panel_contents() is Some ==> final(self).panel_contents() == Some(final(self).frame()),
            delivered(
                old(self).transfers(),
                final(self).transfers(),
                flush_plan(old(self).panel(), Seq::new(frame_len(old(self).panel()), |i: int| 0u8)).push(
                    Transfer::Command(DISPLAYOFF),
                ),
                r,
            ),
    {
        self.clear();
        let ghost before = self.transfers();
        let ghost plan = flush_plan(self.size, self.buffer@);
        let ghost off = seq![Transfer::Command(DISPLAYOFF)];
        assert(plan.push(Transfer::Command(DISPLAYOFF)) =~= plan + off);
        match self.flush() {
            Ok(()) => {},
            Err(e) => {
                proof {
                    lemma_delivered_stopped(before, self.transfers(), plan, off, e);
                }
                return Err(e);
            },
        }
        let ghost mid = self.transfers();
        let r = self.send_command(DISPLAYOFF);
        proof {
            lemma_delivered_single(mid, Transfer::Command(DISPLAYOFF), r);
            lemma_delivered_then(before, mid, self.transfers(), plan, off, r);
        }
        r
    }

    /// Set display contrast, from 0 to 255, and remember it as the level
    /// undimming restores.
    pub fn set_contrast(&mut self, contrast: u8) -> (r: Result<(), I::Error>)
        requires
            old(self).wf(),
        ensures
            final(self).wf(),
            final(self).panel() == old(self).panel(),
            final(self).vcc() == old(self).vcc(),
            final(self).frame() == old(self).frame(),
            final(self).reset_line() == old(self).reset_line(),
            final(self).panel_contents() == old(self).panel_contents(),
            final(self).contrast_level() == contrast,
            delivered(old(self).transfers(), final(self).transfers(), batch(seq![SETCONTRAST, contrast]), r),
    {
        self.contrast = contrast;
        let cmds: [u8; 2] = [SETCONTRAST, contrast];
        assert(cmds@ =~= seq![SETCONTRAST, contrast]);
        self.send_commands(cmds.as_slice())
    }

    /// Dim the display (contrast 0), or restore the contrast last set by
    /// [`Ssd1306::init`] or [`Ssd1306::set_contrast`] if `dim` is `false`.
    pub fn dim(&mut self, dim: bool) -> (r: Result<(), I::Error>)
        requires
            old(self).wf(),
        ensures
            final(self).wf(),
            final(self).same_but_traffic(&*old(self)),
            delivered(
                old(self).transfers(),
                final(self).transfers(),
                batch(seq![SETCONTRAST, dim_contrast(dim, old(self).contrast_level())]),
                r,
            ),
    {
        let level: u8 = if dim {
            0
        } else {
            self.contrast
        };
        let cmds: [u8; 2] = [SETCONTRAST, level];
        assert(cmds@ =~= seq![SETCONTRAST, dim_contrast(dim, self.contrast)]);
        self.send_commands(cmds.as_slice())
    }

    /// Turn the whole display on regardless of buffer contents.
    pub fn display_all_on(&mut self) -> (r: Result<(), I::Error>)
        requires
            old(self).wf(),
        ensures
            final(self).wf(),
            final(self).same_but_traffic(&*old(self)),
            final(self).transfers() == old(self).transfers().push((Transfer::Command(DISPLAYALLON), r)),
    {
        self.send_command(DISPLAYALLON)
    }

    /// Resume showing the frame buffer contents after
    /// [`Ssd1306::display_all_on`].
    pub fn display_all_on_resume(&mut self) -> (r: Result<(), I::Error>)
        requires
            old(self).wf(),
        ensures
            final(self).wf(),
            final(self).same_but_traffic(&*old(self)),
            final(self).transfers() == old(self).transfers().push((Transfer::Command(DISPLAYALLON_RESUME), r)),
    {
        self.send_command(DISPLAYALLON_RESUME)
    }

    /// Invert the display (swap on/off pixels) without touching the buffer.
    pub fn invert(&mut self, invert: bool) -> (r: Result<(), I::Error>)
        requires
            old(self).wf(),
        ensures
            final(self).wf(),
            final(self).same_but_traffic(&*old(self)),
            final(self).transfers() == old(self).transfers().push(
                (Transfer::Command(if invert { INVERTDISPLAY } else { NORMALDISPLAY }), r),
            ),
    {
        self.send_command(if invert { INVERTDISPLAY } else { NORMALDISPLAY })
    }

    /// Turn the panel off (low power mode). The frame buffer is kept and
    /// reappears on the next [`Ssd1306::on`].
    pub fn off(&mut self) -> (r: Result<(), I::Error>)
        requires
            old(self).wf(),
        ensures
            final(self).wf(),
            final(self).same_but_traffic(&*old(self)),
            final(self).transfers() == old(self).transfers().push((Transfer::Command(DISPLAYOFF), r)),
    {
        self.send_command(DISPLAYOFF)
    }

    /// Turn the panel back on.
    pub fn on(&mut self) -> (r: Result<(), I::Error>)
        requires
            old(self).wf(),
        ensures
            final(self).wf(),
            final(self).same_but_traffic(&*old(self)),
            final(self).transfers() == old(self).transfers().push((Transfer::Command(DISPLAYON), r)),
    {
        self.send_command(DISPLAYON)
    }

    fn initialize(&mut self) -> (r: Result<(), I::Error>)
        requires
            old(self).wf(),
        ensures
            final(self).wf(),
            final(self).same_but_traffic(&*old(self)),
            delivered(
                old(self).transfers(),
                final(self).transfers(),
                batch(init_bytes(old(self).panel(), old(self).vcc())),
                r,
            ),
    {
        let cmds: Vec<u8> = initialization_commands(self.size, self.vcc_state);
        self.send_commands(cmds.as_slice())
    }

    /// Initialize the display once the reset line has been pulsed (as
    /// [`reset_pulse`] lists the steps; `reset` is how that went, `Ok` when
    /// there is no reset line). A failed reset is reported without touching
    /// the transport. Otherwise the power source and its contrast are
    /// recorded, the size-specific initialization sequence is sent as one
    /// command sequence, then the display is turned on. Either way the
    /// panel's contents are unknown afterwards.
    pub fn init<P>(&mut self, vcc_state: VccState, reset: Result<(), P>) -> (r: Result<(), InitError<P, I::Error>>)
        requires
            old(self).wf(),
        ensures
            final(self).wf(),
            final(self).panel() == old(self).panel(),
            final(self).frame() == old(self).frame(),
            final(self).reset_line() == old(self).reset_line(),
            final(self).vcc() == vcc_state,
            final(self).panel_contents() == None::<Seq<u8>>,
            reset is Err ==> {
                &&& r == Err::<(), InitError<P, I::Error>>(InitError::Pin(reset->Err_0))
                &&& final(self).transport() == old(self).transport()
                &&& final(self).transfers() == old(self).transfers()
                &&& final(self).contrast_level() == old(self).contrast_level()
            },
            reset is Ok ==> {
                &&& final(self).contrast_level() == init_contrast(old(self).panel(), vcc_state)
                &&& (r is Err ==> r->Err_0 is Interface)
                &&& delivered(
                    old(self).transfers(),
                    final(self).transfers(),
                    batch(init_bytes(old(self).panel(), vcc_state)).push(Transfer::Command(DISPLAYON)),
                    bus_outcome(r),
                )
            },
    {
        self.vcc_state = vcc_state;
        self.shown = None;
        match reset {
            Ok(()) => {},
            Err(e) => {
                return Err(InitError::Pin(e));
            },
        }
        let p = self.size.params();
        self.contrast = if matches!(vcc_state, VccState::External) {
            p.contrast_external
        } else {
            p.contrast_internal
        };
        let ghost before = self.transfers();
        let ghost on = seq![Transfer::Command(DISPLAYON)];
        let ghost init = init_bytes(self.size, vcc_state);
        assert(batch(init).push(Transfer::Command(DISPLAYON)) =~= batch(init) + on);
        match self.initialize() {
            Ok(()) => {},
            Err(e) => {
                proof {
                    lemma_delivered_stopped(before, self.transfers(), batch(init), on, e);
                }
                return Err(InitError::Interface(e));
            },
        }
        let ghost mid = self.transfers();
        let r = self.send_command(DISPLAYON);
        proof {
            lemma_delivered_single(mid, Transfer::Command(DISPLAYON), r);
            lemma_delivered_then(before, mid, self.transfers(), batch(init), on, r);
        }
        match r {
            Ok(()) => Ok(()),
            Err(e) => Err(InitError::Interface(e)),
        }
    }
}

impl<I: DisplayInterface, RST> Ssd1306<I, RST> {
    /// Whether page `p` of the frame differs from what the panel is known to
    /// show.
    fn page_differs(&self, shown: &Vec<u8>, p: usize) -> (d: bool)
        requires
            self.wf(),
            shown@.len() == frame_len(self.panel()),
            p < panel_pages(self.panel()),
        ensures
            d == page_changed(shown@, self.frame(), panel_width(self.panel()), p as nat),
    {
        proof {
            lemma_panel_geometry(self.size);
            lemma_page_span(self.size, p as nat, p as nat);
        }
        let w: usize = self.width as usize;
        let base: usize = p * w;
        let ghost a = page_bytes(shown@, w as nat, p as nat);
        let ghost b = page_bytes(self.buffer@, w as nat, p as nat);
        assert(a.len() == w && b.len() == w);
        let mut x: usize = 0;
        while x < w
            invariant
                a.len() == w,
                b.len() == w,
                frame_len(self.size) <= 1024,
                forall|j: int| 0 <= j < w ==> a[j] == shown@[base + j] && b[j] == self.buffer@[base + j],
                x <= w,
                self.wf(),
                shown@.len() == frame_len(self.size),
                w as nat == panel_width(self.size),
                base as nat == p * w,
                base + w <= shown@.len(),
                shown@.len() == self.buffer@.len(),
                a == page_bytes(shown@, w as nat, p as nat),
                b == page_bytes(self.buffer@, w as nat, p as nat),
                forall|j: int| 0 <= j < x ==> a[j] == b[j],
            decreases w - x,
        {
            if shown[base + x] != self.buffer[base + x] {
                assert(a[x as int] != b[x as int]);
                return true;
            }
            x = x + 1;
        }
        assert(a =~= b);
        false
    }

    /// The first and last pages that differ from what the panel is known to
    /// show; the first is the page count when none does.
    fn changed_pages(&self) -> (pages: (usize, usize))
        requires
            self.wf(),
            self.panel_contents() is Some,
        ensures
            pages.0 as nat == first_changed_page(
                self.panel_contents()->0,
                self.frame(),
                panel_width(self.panel()),
                0,
                panel_pages(self.panel()),
            ),
            pages.0 <= panel_pages(self.panel()),
            pages.0 < panel_pages(self.panel()) ==> {
                &&& pages.0 <= pages.1 < panel_pages(self.panel())
                &&& pages.1 as int == last_changed_page(
                    self.panel_contents()->0,
                    self.frame(),
                    panel_width(self.panel()),
                    panel_pages(self.panel()),
                )
            },
    {
        let shown: &Vec<u8> = match &self.shown {
            Some(v) => v,
            None => {
                return (0, 0);
            },
        };
        let ghost a = shown@;
        let ghost fb = self.buffer@;
        let ghost w = panel_width(self.size);
        let n: usize = self.pages;
        let mut first: usize = n;
        let mut p: usize = 0;
        while p < n && first == n
            invariant
                n as nat == panel_pages(self.size),
                self.wf(),
                shown@ == a,
                a.len() == frame_len(self.size),
                fb == self.buffer@,
                w == panel_width(self.size),
                p <= n,
                first <= n,
                first == n ==> first_changed_page(a, fb, w, 0, n as nat) == first_changed_page(a, fb, w, p as nat, n as nat),
                first < n ==> first as nat == first_changed_page(a, fb, w, 0, n as nat) && page_changed(a, fb, w, first as nat) && first < p,
            decreases n - p,
        {
            if self.page_differs(shown, p) {
                first = p;
            }
            p = p + 1;
        }
        if first == n {
            return (n, 0);
        }
        let mut last: usize = n;
        let mut q: usize = n;
        while q > first && last == n
            invariant
                n as nat == panel_pages(self.size),
                self.wf(),
                shown@ == a,
                a.len() == frame_len(self.size),
                fb == self.buffer@,
                w == panel_width(self.size),
                first < n,
                page_changed(a, fb, w, first as nat),
                first <= q <= n,
                last == n ==> last_changed_page(a, fb, w, n as nat) == last_changed_page(a, fb, w, q as nat),
                last <= n,
                last == n ==> q > first,
                last < n ==> last as int == last_changed_page(a, fb, w, n as nat) && first <= last,
            decreases q,
        {
            if self.page_differs(shown, q - 1) {
                last = q - 1;
            } else {
                assert(q - 1 != first);
            }
            q = q - 1;
        }
        (first, last)
    }
}

/// A copy of the frame, to remember what the panel shows.
fn copy_frame(frame: &Vec<u8>) -> (copy: Vec<u8>)
    ensures
        copy@ == frame@,
{
    let mut copy: Vec<u8> = Vec::new();
    let mut i: usize = 0;
    while i < frame.len()
        invariant
            i <= frame@.len(),
            copy@ == frame@.take(i as int),
        decreases frame@.len() - i,
    {
        copy.push(frame[i]);
        assert(frame@.take(i + 1) =~= frame@.take(i as int).push(frame@[i as int]));
        i = i + 1;
    }
    assert(frame@.take(frame@.len() as int) =~= frame@);
    copy
}

/// Pages `first..=last` of the panel lie inside the frame.
proof fn lemma_page_span(size: DisplaySize, first: nat, last: nat)
    requires
        first <= last < panel_pages(size),
    ensures
        first * panel_width(size) <= (last + 1) * panel_width(size) <= frame_len(size),
        (first + 1) * panel_width(size) == first * panel_width(size) + panel_width(size),
{
    lemma_panel_geometry(size);
    let w = panel_width(size);
    let n = panel_pages(size);
    assert(first * w <= (last + 1) * w <= n * w && (first + 1) * w == first * w + w) by (nonlinear_arith)
        requires
            first <= last < n,
    ;
}

// ---------------------------------------------------------------------
// Laws of the frame buffer.
// ---------------------------------------------------------------------

/// Reading a pixel right after writing it gives back what was written, and
/// writing one pixel leaves every other pixel of the panel as it was.
pub proof fn lemma_pixel_write_read(frame: Seq<u8>, size: DisplaySize, x: nat, y: nat, on: bool, x2: nat, y2: nat)
    requires
        frame.len() == frame_len(size),
        on_panel(size, x as int, y as int),
        on_panel(size, x2 as int, y2 as int),
    ensures
        pixel_on(frame_with_pixel(frame, panel_width(size), x, y, on), panel_width(size), x, y) == on,
        (x2 != x || y2 != y) ==> pixel_on(frame_with_pixel(frame, panel_width(size), x, y, on), panel_width(size), x2, y2)
            == pixel_on(frame, panel_width(size), x2, y2),
{
    let w: nat = panel_width(size);
    lemma_panel_geometry(size);
    lemma_pixel_index_bounds(size, x, y);
    lemma_pixel_index_bounds(size, x2, y2);
    let i: nat = pixel_index(w, x, y);
    let i2: nat = pixel_index(w, x2, y2);
    let b: u8 = frame[i as int];
    lemma_with_bit(b, (y % 8) as u8, (y % 8) as u8, on);
    if x2 != x || y2 != y {
        if i2 == i {
            lemma_pixel_index_injective(w, x, y, x2, y2);
            assert(y % 8 != y2 % 8);
            lemma_with_bit(b, (y % 8) as u8, (y2 % 8) as u8, on);
        }
    }
}

/// Of two writes to the same pixel, the later one wins.
pub proof fn lemma_pixel_last_write_wins(frame: Seq<u8>, size: DisplaySize, x: nat, y: nat, first: bool, second: bool)
    requires
        frame.len() == frame_len(size),
        on_panel(size, x as int, y as int),
    ensures
        frame_with_pixel(frame_with_pixel(frame, panel_width(size), x, y, first), panel_width(size), x, y, second)
            == frame_with_pixel(frame, panel_width(size), x, y, second),
{
    let w: nat = panel_width(size);
    lemma_pixel_index_bounds(size, x, y);
    let i: int = pixel_index(w, x, y) as int;
    let b: u8 = frame[i];
    let k: u8 = (y % 8) as u8;
    assert(with_bit(with_bit(b, k, first), k, second) == with_bit(b, k, second)) by {
        if first {
            if second {
                assert((b | (1u8 << k)) | (1u8 << k) == b | (1u8 << k)) by (bit_vector);
            } else {
                assert((b | (1u8 << k)) & !(1u8 << k) == b & !(1u8 << k)) by (bit_vector);
            }
        } else {
            if second {
                assert((b & !(1u8 << k)) | (1u8 << k) == b | (1u8 << k)) by (bit_vector);
            } else {
                assert((b & !(1u8 << k)) & !(1u8 << k) == b & !(1u8 << k)) by (bit_vector);
            }
        }
    }
    assert(frame_with_pixel(frame_with_pixel(frame, w, x, y, first), w, x, y, second)
        =~= frame_with_pixel(frame, w, x, y, second));
}

/// Writing a pixel's current value back leaves the frame unchanged.
pub proof fn lemma_pixel_rewrite_is_identity(frame: Seq<u8>, size: DisplaySize, x: nat, y: nat)
    requires
        frame.len() == frame_len(size),
        on_panel(size, x as int, y as int),
    ensures
        frame_with_pixel(frame, panel_width(size), x, y, pixel_on(frame, panel_width(size), x, y)) == frame,
{
    let w: nat = panel_width(size);
    lemma_pixel_index_bounds(size, x, y);
    let i: int = pixel_index(w, x, y) as int;
    let b: u8 = frame[i];
    let k: u8 = (y % 8) as u8;
    assert(k < 8);
    assert(with_bit(b, k, bit_is_set(b, k)) == b) by {
        if b & (1u8 << k) != 0 {
            assert(b & (1u8 << k) != 0 ==> b | (1u8 << k) == b) by (bit_vector)
                requires k < 8;
        } else {
            assert(b & (1u8 << k) == 0 ==> b & !(1u8 << k) == b) by (bit_vector)
                requires k < 8;
        }
    }
    assert(frame_with_pixel(frame, w, x, y, bit_is_set(b, k)) =~= frame);
}

/// Whether a draw in `pixels` falls on `(x, y)`.
pub open spec fn draws_at(pixels: Seq<(i32, i32, bool)>, i: int, x: int, y: int) -> bool {
    pixels[i].0 as int == x && pixels[i].1 as int == y
}

/// Drawing a run of points leaves each pixel of the panel as the last draw
/// that fell on it set it, and as it was where none did; the first row and
/// column count like any other. The frame keeps its length.
pub proof fn lemma_drawing_sets_each_pixel_to_its_last_draw(
    size: DisplaySize,
    frame: Seq<u8>,
    pixels: Seq<(i32, i32, bool)>,
    x: nat,
    y: nat,
)
    requires
        frame.len() == frame_len(size),
        on_panel(size, x as int, y as int),
    ensures
        frame_after_drawing(size, frame, pixels).len() == frame.len(),
        (forall|i: int| 0 <= i < pixels.len() ==> !#[trigger] draws_at(pixels, i, x as int, y as int))
            ==> pixel_on(frame_after_drawing(size, frame, pixels), panel_width(size), x, y)
            == pixel_on(frame, panel_width(size), x, y),
        forall|i: int|
            0 <= i < pixels.len() && #[trigger] draws_at(pixels, i, x as int, y as int) && (forall|k: int|
                i < k < pixels.len() ==> !#[trigger] draws_at(pixels, k, x as int, y as int))
                ==> pixel_on(frame_after_drawing(size, frame, pixels), panel_width(size), x, y) == pixels[i].2,
    decreases pixels.len(),
{
    if pixels.len() > 0 {
        let w: nat = panel_width(size);
        let rest = pixels.drop_last();
        let last: int = pixels.len() - 1;
        let p = pixels.last();
        lemma_drawing_sets_each_pixel_to_its_last_draw(size, frame, rest, x, y);
        let before = frame_after_drawing(size, frame, rest);
        assert forall|i: int| 0 <= i < rest.len() implies #[trigger] draws_at(rest, i, x as int, y as int)
            == draws_at(pixels, i, x as int, y as int) by {
            assert(rest[i] == pixels[i]);
        }
        if on_panel(size, p.0 as int, p.1 as int) {
            lemma_pixel_write_read(before, size, p.0 as nat, p.1 as nat, p.2, x, y);
            lemma_pixel_index_bounds(size, p.0 as nat, p.1 as nat);
        }
        if !draws_at(pixels, last, x as int, y as int) {
            assert forall|i: int|
                0 <= i < pixels.len() && #[trigger] draws_at(pixels, i, x as int, y as int) && (forall|k: int|
                    i < k < pixels.len() ==> !#[trigger] draws_at(pixels, k, x as int, y as int))
                    implies pixel_on(frame_after_drawing(size, frame, pixels), w, x, y) == pixels[i].2 by {
                assert(i < last);
                assert(draws_at(rest, i, x as int, y as int));
                assert forall|k: int| i < k < rest.len() implies !#[trigger] draws_at(rest, k, x as int, y as int) by {
                    assert(!draws_at(pixels, k, x as int, y as int));
                }
            }
        } else {
            assert forall|i: int|
                0 <= i < pixels.len() && #[trigger] draws_at(pixels, i, x as int, y as int) && (forall|k: int|
                    i < k < pixels.len() ==> !#[trigger] draws_at(pixels, k, x as int, y as int))
                    implies pixel_on(frame_after_drawing(size, frame, pixels), w, x, y) == pixels[i].2 by {
                if i < last {
                    assert(!draws_at(pixels, last, x as int, y as int));
                }
            }
        }
    }
}

/// The contrast the initialization sequence sends is the level `init`
/// remembers, so undimming after `init` sends it again, while dimming sends
/// zero; after `set_contrast(c)` undimming sends `c`.
pub proof fn lemma_undim_restores_contrast(size: DisplaySize, vcc: VccState, c: u8)
    ensures
        init_bytes(size, vcc)[16] == SETCONTRAST,
        init_bytes(size, vcc)[17] == init_contrast(size, vcc),
        dim_contrast(false, init_contrast(size, vcc)) == init_bytes(size, vcc)[17],
        dim_contrast(true, init_contrast(size, vcc)) == 0,
        dim_contrast(false, c) == c,
{
}

proof fn lemma_first_changed_is_first(a: Seq<u8>, b: Seq<u8>, w: nat, p: nat, n: nat, q: nat)
    requires
        p <= q < n,
        page_changed(a, b, w, q),
    ensures
        p <= first_changed_page(a, b, w, p, n) <= q,
    decreases n - p,
{
    if p < q && !page_changed(a, b, w, p) {
        lemma_first_changed_is_first(a, b, w, p + 1, n, q);
    }
}

proof fn lemma_last_changed_is_last(a: Seq<u8>, b: Seq<u8>, w: nat, q: nat, p: nat)
    requires
        p < q,
        page_changed(a, b, w, p),
    ensures
        p <= last_changed_page(a, b, w, q) < q,
    decreases q,
{
    if q - 1 > p && !page_changed(a, b, w, (q - 1) as nat) {
        lemma_last_changed_is_last(a, b, w, (q - 1) as nat, p);
    }
}

proof fn lemma_no_change_found(a: Seq<u8>, w: nat, p: nat, n: nat)
    ensures
        first_changed_page(a, a, w, p, n) == n,
    decreases n - p,
{
    if p < n {
        lemma_no_change_found(a, w, p + 1, n);
    }
}

/// What [`Ssd1306::flush_changed`] sends covers every change: each page
/// that differs from what the panel shows lies between the first and the
/// last page it sends, and when nothing differs it sends nothing.
pub proof fn lemma_flush_changed_covers_changes(size: DisplaySize, shown: Seq<u8>, frame: Seq<u8>, p: nat)
    requires
        p < panel_pages(size),
    ensures
        page_changed(shown, frame, panel_width(size), p) ==> {
            let first = first_changed_page(shown, frame, panel_width(size), 0, panel_pages(size));
            let last = last_changed_page(shown, frame, panel_width(size), panel_pages(size));
            first <= p <= last < panel_pages(size)
        },
        flush_changed_plan(size, Some(frame), frame) == Seq::<Transfer>::empty(),
{
    let w = panel_width(size);
    let n = panel_pages(size);
    if page_changed(shown, frame, w, p) {
        lemma_first_changed_is_first(shown, frame, w, 0, n, p);
        lemma_last_changed_is_last(shown, frame, w, n, p);
    }
    lemma_no_change_found(frame, w, 0, n);
}

/// A page counts as changed exactly when some byte of it differs, its
/// last column included.
pub proof fn lemma_page_changed_iff_some_byte_differs(a: Seq<u8>, b: Seq<u8>, w: nat, p: nat)
    requires
        a.len() >= (p + 1) * w,
        b.len() >= (p + 1) * w,
    ensures
        page_changed(a, b, w, p) <==> exists|i: int| p * w <= i < p * w + w && #[trigger] a[i] != b[i],
{
    assert((p + 1) * w == p * w + w) by (nonlinear_arith);
    let pa = page_bytes(a, w, p);
    let pb = page_bytes(b, w, p);
    assert(pa.len() == w && pb.len() == w);
    if exists|i: int| p * w <= i < p * w + w && #[trigger] a[i] != b[i] {
        let i: int = choose|i: int| p * w <= i < p * w + w && #[trigger] a[i] != b[i];
        assert(pa[i - p * w] != pb[i - p * w]);
    } else {
        assert forall|j: int| 0 <= j < w implies pa[j] == pb[j] by {
            assert(!(a[p * w + j] != b[p * w + j]));
        }
        assert(pa =~= pb);
    }
}

/// Pages before the first changed one are unchanged.
proof fn lemma_before_first_changed(a: Seq<u8>, b: Seq<u8>, w: nat, p: nat, n: nat, q: nat)
    requires
        p <= q < first_changed_page(a, b, w, p, n),
    ensures
        !page_changed(a, b, w, q),
{
    if page_changed(a, b, w, q) {
        if q < n {
            lemma_first_changed_is_first(a, b, w, p, n, q);
        } else {
            lemma_first_changed_at_most(a, b, w, p, n);
        }
    }
}

proof fn lemma_first_changed_at_most(a: Seq<u8>, b: Seq<u8>, w: nat, p: nat, n: nat)
    ensures
        first_changed_page(a, b, w, p, n) <= n,
    decreases n - p,
{
    if p < n && !page_changed(a, b, w, p) {
        lemma_first_changed_at_most(a, b, w, p + 1, n);
    }
}

/// The first changed page found below `n` does change.
proof fn lemma_first_changed_is_changed(a: Seq<u8>, b: Seq<u8>, w: nat, p: nat, n: nat)
    requires
        first_changed_page(a, b, w, p, n) < n,
    ensures
        page_changed(a, b, w, first_changed_page(a, b, w, p, n)),
    decreases n - p,
{
    if p < n && !page_changed(a, b, w, p) {
        lemma_first_changed_is_changed(a, b, w, p + 1, n);
    }
}

/// The last changed page found below `q`, if any, does change.
proof fn lemma_last_changed_is_changed(a: Seq<u8>, b: Seq<u8>, w: nat, q: nat)
    requires
        last_changed_page(a, b, w, q) >= 0,
    ensures
        page_changed(a, b, w, last_changed_page(a, b, w, q) as nat),
    decreases q,
{
    if q > 0 && !page_changed(a, b, w, (q - 1) as nat) {
        lemma_last_changed_is_changed(a, b, w, (q - 1) as nat);
    }
}

/// The page that byte `i` belongs to, against a page boundary `k`.
proof fn lemma_page_of_byte(w: nat, i: int, k: nat)
    requires
        w > 0,
        0 <= i,
    ensures
        0 <= i / (w as int),
        i == (i / (w as int)) * w + i % (w as int),
        0 <= i % (w as int) < w,
        i < k * w ==> i / (w as int) < k,
        i >= k * w ==> i / (w as int) >= k,
{
    lemma_fundamental_div_mod(i, w as int);
    lemma_mod_pos_bound(i, w as int);
    let q: int = i / (w as int);
    let r: int = i % (w as int);
    assert(0 <= q && i == q * w + r && (i < k * w ==> q < k) && (i >= k * w ==> q >= k)) by (nonlinear_arith)
        requires
            i == w * q + r,
            0 <= r < w,
            0 <= i,
            w > 0,
    ;
}

/// A byte of an unchanged page is the same in both frames.
proof fn lemma_byte_of_unchanged_page(a: Seq<u8>, b: Seq<u8>, w: nat, n: nat, i: int)
    requires
        w > 0,
        a.len() == n * w,
        b.len() == n * w,
        0 <= i < n * w,
        !page_changed(a, b, w, (i / (w as int)) as nat),
    ensures
        a[i] == b[i],
{
    lemma_page_of_byte(w, i, n);
    let p: nat = (i / (w as int)) as nat;
    let j: int = i % (w as int);
    assert((p + 1) * w <= n * w) by (nonlinear_arith)
        requires
            p < n,
    ;
    lemma_page_changed_iff_some_byte_differs(a, b, w, p);
    assert(!(a[p * w + j] != b[p * w + j]));
}

/// What a panel that showed `shown` holds after `data` is written to it from
/// byte `start` on.
pub open spec fn panel_after_write(shown: Seq<u8>, start: int, data: Seq<u8>) -> Seq<u8> {
    shown.take(start) + data + shown.skip(start + data.len())
}

/// [`Ssd1306::flush_changed`] brings a panel that showed `shown` up to date
/// with `frame`: when it sends nothing, the two are equal; otherwise it sends
/// one address window of whole pages, from a changed page to a changed page,
/// and then as many bytes as the window holds, and writing those bytes into
/// the window turns `shown` into `frame`.
/// When the panel's contents are unknown it sends a window from the first
/// page on with the whole frame, which leaves the panel showing `frame`
/// whatever it showed before.
pub proof fn lemma_flush_changed_brings_panel_up_to_date(size: DisplaySize, shown: Seq<u8>, frame: Seq<u8>)
    requires
        shown.len() == frame_len(size),
        frame.len() == frame_len(size),
    ensures
        flush_changed_plan(size, Some(shown), frame).len() == 0 ==> shown == frame,
        flush_changed_plan(size, Some(shown), frame).len() != 0 ==> exists|first: nat, last: nat, d: Seq<u8>|
            {
                &&& first <= last < panel_pages(size)
                &&& flush_changed_plan(size, Some(shown), frame) == seq![
                    Transfer::Commands(page_window(size, first, last)),
                    Transfer::Data(d),
                ]
                &&& d.len() == (last + 1 - first) * panel_width(size)
                &&& panel_after_write(shown, (first * panel_width(size)) as int, d) == frame
                &&& page_changed(shown, frame, panel_width(size), first)
                &&& page_changed(shown, frame, panel_width(size), last)
            },
        exists|last: nat, d: Seq<u8>|
            {
                &&& last < panel_pages(size)
                &&& flush_changed_plan(size, None, frame) == seq![
                    Transfer::Commands(page_window(size, 0, last)),
                    Transfer::Data(d),
                ]
                &&& d.len() == (last + 1) * panel_width(size)
                &&& panel_after_write(shown, 0, d) == frame
            },
{
    lemma_panel_geometry(size);
    let w: nat = panel_width(size);
    let n: nat = panel_pages(size);
    let top: nat = (n - 1) as nat;
    assert((top + 1) * w == frame_len(size));
    assert(panel_after_write(shown, 0, frame) =~= frame);
    assert(flush_changed_plan(size, None, frame) =~= seq![
        Transfer::Commands(page_window(size, 0, top)),
        Transfer::Data(frame),
    ]);
    let first: nat = first_changed_page(shown, frame, w, 0, n);
    lemma_first_changed_at_most(shown, frame, w, 0, n);
    if first >= n {
        assert forall|i: int| 0 <= i < frame.len() implies shown[i] == frame[i] by {
            lemma_page_of_byte(w, i, n);
            lemma_before_first_changed(shown, frame, w, 0, n, (i / (w as int)) as nat);
            lemma_byte_of_unchanged_page(shown, frame, w, n, i);
        }
        assert(shown =~= frame);
    } else {
        lemma_first_changed_is_changed(shown, frame, w, 0, n);
        lemma_last_changed_is_last(shown, frame, w, n, first);
        lemma_last_changed_is_changed(shown, frame, w, n);
        let last: nat = last_changed_page(shown, frame, w, n) as nat;
        lemma_page_span(size, first, last);
        let start: int = (first * w) as int;
        let end: int = ((last + 1) * w) as int;
        let d = frame.subrange(start, end);
        assert(d.len() == (last + 1 - first) * w) by (nonlinear_arith)
            requires
                d.len() == (last + 1) * w - first * w,
                first <= last,
        ;
        let after = panel_after_write(shown, start, d);
        assert forall|i: int| 0 <= i < frame.len() implies after[i] == frame[i] by {
            lemma_page_of_byte(w, i, first);
            lemma_page_of_byte(w, i, last + 1);
            let q: nat = (i / (w as int)) as nat;
            if i < start {
                lemma_before_first_changed(shown, frame, w, 0, n, q);
                lemma_byte_of_unchanged_page(shown, frame, w, n, i);
            } else if i >= end {
                lemma_page_of_byte(w, i, n);
                if page_changed(shown, frame, w, q) {
                    lemma_last_changed_is_last(shown, frame, w, n, q);
                }
                lemma_byte_of_unchanged_page(shown, frame, w, n, i);
            }
        }
        assert(after =~= frame);
        assert(flush_changed_plan(size, Some(shown), frame) =~= seq![
            Transfer::Commands(page_window(size, first, last)),
            Transfer::Data(d),
        ]);
    }
}

/// How an operation changes the contrast level that undimming restores.
pub enum ContrastChange {
    /// `init` with a successful reset: the initialization contrast for the
    /// power source.
    Init(VccState),
    /// `set_contrast` with this level.
    SetLevel(u8),
    /// Any other operation, `dim` included, and `init` after a failed reset.
    Keep,
}

/// One operation's effect on the remembered contrast, as its contract
/// states it.
pub open spec fn contrast_step(size: DisplaySize, before: u8, change: ContrastChange, after: u8) -> bool {
    match change {
        ContrastChange::Init(vcc) => after == init_contrast(size, vcc),
        ContrastChange::SetLevel(c) => after == c,
        ContrastChange::Keep => after == before,
    }
}

/// The level set last by the operations `changes`, or `start` if none sets
/// one.
pub open spec fn last_set_contrast(size: DisplaySize, start: u8, changes: Seq<ContrastChange>) -> u8
    decreases changes.len(),
{
    if changes.len() == 0 {
        start
    } else {
        match changes.last() {
            ContrastChange::Init(vcc) => init_contrast(size, vcc),
            ContrastChange::SetLevel(c) => c,
            ContrastChange::Keep => last_set_contrast(size, start, changes.drop_last()),
        }
    }
}

/// Along any run of operations, undimming sends the contrast set last by
/// `init` or `set_contrast` (or the one the driver started with), however
/// many other operations, dimming included, came in between.
pub proof fn lemma_undim_restores_last_set_contrast(size: DisplaySize, levels: Seq<u8>, changes: Seq<ContrastChange>)
    requires
        levels.len() == changes.len() + 1,
        forall|i: int| #![trigger levels[i]] 0 < i < levels.len() ==> contrast_step(size, levels[i - 1], changes[i - 1], levels[i]),
    ensures
        levels.last() == last_set_contrast(size, levels[0], changes),
        dim_contrast(false, levels.last()) == last_set_contrast(size, levels[0], changes),
    decreases changes.len(),
{
    if changes.len() > 0 {
        let k: int = changes.len() as int;
        let shorter = levels.drop_last();
        assert forall|i: int| #![trigger shorter[i]] 0 < i < shorter.len() implies contrast_step(size, shorter[i - 1], changes.drop_last()[i - 1], shorter[i]) by {
            assert(levels[i] == shorter[i]);
        }
        lemma_undim_restores_last_set_contrast(size, shorter, changes.drop_last());
        assert(levels[k] == levels.last());
        assert(contrast_step(size, levels[k - 1], changes[k - 1], levels[k]));
    }
}

/// The reset line stays the one the driver was built with along any run of
/// operations, each keeping it as its contract states, so `release` gives
/// back what the constructor took (`None` for `new_without_reset`).
pub proof fn lemma_reset_line_kept<I: DisplayInterface, RST>(states: Seq<Ssd1306<I, RST>>)
    requires
        states.len() >= 1,
        forall|i: int| #![trigger states[i]] 0 < i < states.len() ==> states[i].reset_line() == states[i - 1].reset_line(),
    ensures
        states.last().reset_line() == states[0].reset_line(),
    decreases states.len(),
{
    if states.len() > 1 {
        let shorter = states.drop_last();
        assert forall|i: int| #![trigger shorter[i]] 0 < i < shorter.len() implies shorter[i].reset_line() == shorter[i - 1].reset_line() by {
            assert(states[i] == shorter[i]);
        }
        lemma_reset_line_kept(shorter);
        assert(states[states.len() - 1].reset_line() == states[states.len() - 2].reset_line());
    }
}

/// The frame buffer holds one bit per pixel: its length is
/// `width * height / 8` bytes for every panel size.
pub proof fn lemma_frame_len_is_one_bit_per_pixel(size: DisplaySize)
    ensures
        frame_len(size) * 8 == panel_width(size) * panel_height(size),
        frame_len(size) == panel_width(size) * panel_height(size) / 8,
{
    lemma_panel_geometry(size);
    let w: nat = panel_width(size);
    let p: nat = panel_pages(size);
    let h: nat = panel_height(size);
    assert(w * p * 8 == w * h && w * p == w * h / 8) by (nonlinear_arith)
        requires
            h == p * 8,
    ;
}

} // verus!
