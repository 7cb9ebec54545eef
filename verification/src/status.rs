//! Decisions of the system-information display: how long to wait between
//! refreshes while watching for the display-off flag, which line of a
//! message to show and in which font, when to re-query slow values, and
//! which field of the load average to show.
use vstd::prelude::*;

verus! {

/// How often the display-off flag is checked while waiting, in milliseconds.
pub const DISPLAY_OFF_POLL_INTERVAL_MS: u64 = 100;

/// How long a message stays on screen, in milliseconds.
pub const MESSAGE_DURATION_MS: u64 = 3000;

/// Delay between refreshes of the status lines, in milliseconds.
pub const REFRESH_INTERVAL_MS: u64 = 500;

/// How often values that rarely change (IP address, disk usage) are queried
/// again, in milliseconds.
pub const SLOW_REFRESH_INTERVAL_MS: u64 = 30000;

/// Messages at least this many bytes long are shown in the small font.
pub const SMALL_FONT_MIN_LEN: usize = 20;

/// What to do next while waiting out an interval.
#[derive(Debug, Clone, Copy, PartialEq, Eq, Structural)]
pub enum WaitStep {
    /// The interval is over and the display stayed on.
    Finished,
    /// The display-off flag appeared: blank the panel, put it to sleep and
    /// stop waiting.
    Blank,
    /// Sleep this many milliseconds, then ask again.
    Sleep(u64),
}

/// What to do with the panel's power as the display-off flag comes and goes.
#[derive(Debug, Clone, Copy, PartialEq, Eq, Structural)]
pub enum PanelPower {
    /// The flag appeared: blank the panel and put it to sleep.
    Sleep,
    /// The flag is gone: wake the panel.
    Wake,
    /// Leave the panel as it is.
    Keep,
}

/// What one pass of the status display's loop shows.
#[derive(Debug, Clone, Copy, PartialEq, Eq, Structural)]
pub enum Screen {
    /// The program was asked to stop: blank the panel, put it to sleep and
    /// end.
    Shutdown,
    /// The display-off flag is present: show nothing and check again after
    /// the polling interval.
    Off,
    /// A message file is waiting: show its line for `MESSAGE_DURATION_MS`.
    Message,
    /// Show the status lines for `REFRESH_INTERVAL_MS`.
    Status,
}

/// Font for a one-off message.
#[derive(Debug, Clone, Copy, PartialEq, Eq, Structural)]
pub enum MessageFont {
    /// 7x13 glyphs.
    Normal,
    /// 6x10 glyphs, for long messages.
    Small,
}

pub open spec fn min_u64(a: u64, b: u64) -> u64 {
    if a <= b {
        a
    } else {
        b
    }
}

/// The next step after `waited` of `total` milliseconds, given whether the
/// display-off flag is present.
pub open spec fn next_wait_step(waited: u64, total: u64, display_off: bool) -> WaitStep {
    if waited >= total {
        WaitStep::Finished
    } else if display_off {
        WaitStep::Blank
    } else {
        WaitStep::Sleep(min_u64(DISPLAY_OFF_POLL_INTERVAL_MS, (total - waited) as u64))
    }
}

/// The sleeps taken from `waited` up to `total` while the flag stays absent.
pub open spec fn sleep_schedule(waited: u64, total: u64) -> Seq<u64>
    decreases total - waited,
{
    if waited >= total {
        Seq::empty()
    } else {
        let d: u64 = min_u64(DISPLAY_OFF_POLL_INTERVAL_MS, (total - waited) as u64);
        seq![d] + sleep_schedule((waited + d) as u64, total)
    }
}

pub open spec fn sum(s: Seq<u64>) -> int
    decreases s.len(),
{
    if s.len() == 0 {
        0
    } else {
        s[0] + sum(s.drop_first())
    }
}

/// Decide the next step of waiting out `total_ms` after `waited_ms` have
/// passed, polling the display-off flag.
pub fn wait_step(waited_ms: u64, total_ms: u64, display_off: bool) -> (step: WaitStep)
    ensures
        step == next_wait_step(waited_ms, total_ms, display_off),
        step matches WaitStep::Sleep(d) ==> 0 < d <= DISPLAY_OFF_POLL_INTERVAL_MS && waited_ms + d <= total_ms,
{
    if waited_ms >= total_ms {
        WaitStep::Finished
    } else if display_off {
        WaitStep::Blank
    } else {
        let left: u64 = total_ms - waited_ms;
        WaitStep::Sleep(if DISPLAY_OFF_POLL_INTERVAL_MS <= left { DISPLAY_OFF_POLL_INTERVAL_MS } else { left })
    }
}

/// While the display-off flag stays absent, the sleeps add up to exactly the
/// time left, none longer than the polling interval.
pub proof fn lemma_sleeps_cover_interval(waited: u64, total: u64)
    ensures
        sum(sleep_schedule(waited, total)) == if waited >= total { 0 } else { total - waited },
        forall|i: int| 0 <= i < sleep_schedule(waited, total).len()
            ==> 0 < #[trigger] sleep_schedule(waited, total)[i] <= DISPLAY_OFF_POLL_INTERVAL_MS,
    decreases total - waited,
{
    if waited < total {
        let d: u64 = min_u64(DISPLAY_OFF_POLL_INTERVAL_MS, (total - waited) as u64);
        let next: u64 = (waited + d) as u64;
        lemma_sleeps_cover_interval(next, total);
        let s = sleep_schedule(waited, total);
        assert(s.drop_first() =~= sleep_schedule(next, total));
        assert forall|i: int| 0 <= i < s.len() implies 0 < #[trigger] s[i] <= DISPLAY_OFF_POLL_INTERVAL_MS by {
            if i > 0 {
                assert(s[i] == sleep_schedule(next, total)[i - 1]);
            }
        }
    }
}

/// While the display-off flag is absent, waiting goes on until the whole
/// interval has passed: the step is `Finished` exactly when `waited` has
/// reached `total`; before that it is a sleep of the polling interval, or of
/// the time left when less is left, which is the first sleep of
/// `sleep_schedule`. With the flag present the step is `Blank` until then.
pub proof fn lemma_wait_runs_until_total(waited: u64, total: u64)
    ensures
        (next_wait_step(waited, total, false) is Finished) <==> waited >= total,
        next_wait_step(waited, total, false) matches WaitStep::Sleep(d) ==> {
            &&& 0 < d <= DISPLAY_OFF_POLL_INTERVAL_MS
            &&& waited + d <= total
            &&& (d == DISPLAY_OFF_POLL_INTERVAL_MS || waited + d == total)
        },
        waited < total ==> {
            let s = sleep_schedule(waited, total);
            &&& s.len() > 0
            &&& next_wait_step(waited, total, false) == WaitStep::Sleep(s[0])
            &&& s.drop_first() == sleep_schedule((waited + s[0]) as u64, total)
            &&& sum(s) == total - waited
        },
        next_wait_step(waited, total, true) == if waited >= total { WaitStep::Finished } else { WaitStep::Blank },
{
    lemma_sleeps_cover_interval(waited, total);
    if waited < total {
        let s = sleep_schedule(waited, total);
        let d: u64 = min_u64(DISPLAY_OFF_POLL_INTERVAL_MS, (total - waited) as u64);
        assert(s[0] == d);
        assert(s.drop_first() =~= sleep_schedule((waited + d) as u64, total));
    }
}

/// The power step for the display-off flag being present or not while the
/// panel is asleep or awake: it sleeps when the flag appears and wakes when
/// the flag is gone.
pub fn panel_power(display_off: bool, asleep: bool) -> (step: PanelPower)
    ensures
        step == if display_off && !asleep {
            PanelPower::Sleep
        } else if !display_off && asleep {
            PanelPower::Wake
        } else {
            PanelPower::Keep
        },
{
    if display_off && !asleep {
        PanelPower::Sleep
    } else if !display_off && asleep {
        PanelPower::Wake
    } else {
        PanelPower::Keep
    }
}

/// What a pass of the loop shows: a stop request wins over the display-off
/// flag, which wins over a waiting message, which wins over the status
/// lines.
pub fn next_screen(stop: bool, display_off: bool, message_waiting: bool) -> (screen: Screen)
    ensures
        screen == if stop {
            Screen::Shutdown
        } else if display_off {
            Screen::Off
        } else if message_waiting {
            Screen::Message
        } else {
            Screen::Status
        },
{
    if stop {
        Screen::Shutdown
    } else if display_off {
        Screen::Off
    } else if message_waiting {
        Screen::Message
    } else {
        Screen::Status
    }
}

/// Where a message is drawn: the panel's centre (text centred on it).
pub fn message_anchor(width: u32, height: u32) -> (p: (i32, i32))
    ensures
        p == ((width / 2) as i32, (height / 2) as i32),
{
    ((width / 2) as i32, (height / 2) as i32)
}

/// Where the status lines are drawn (text's top left corner), in the order
/// time, IP address, CPU load, memory, disk: the time at the top right, the
/// others down the left edge.
pub fn status_layout(width: u32) -> (layout: [(i32, i32); 5])
    requires
        width <= i32::MAX,
    ensures
        layout@ == seq![((width - 30) as i32, 0i32), (0i32, 0i32), (0i32, 8i32), (0i32, 16i32), (0i32, 25i32)],
{
    let layout: [(i32, i32); 5] = [(width as i32 - 30, 0), (0, 0), (0, 8), (0, 16), (0, 25)];
    assert(layout@ =~= seq![((width - 30) as i32, 0i32), (0i32, 0i32), (0i32, 8i32), (0i32, 16i32), (0i32, 25i32)]);
    layout
}

/// Whether the slow values are due for another query: when the IP address
/// is still unknown, when they were never queried, or when the last query is
/// at least `SLOW_REFRESH_INTERVAL_MS` old.
pub fn slow_refresh_due(ip_is_empty: bool, since_last_ms: Option<u64>) -> (due: bool)
    ensures
        due == (ip_is_empty || since_last_ms is None || since_last_ms->0 >= SLOW_REFRESH_INTERVAL_MS),
{
    ip_is_empty || match since_last_ms {
        None => true,
        Some(t) => t >= SLOW_REFRESH_INTERVAL_MS,
    }
}

/// Font for a message line of `len_bytes` bytes.
pub fn message_font(len_bytes: usize) -> (font: MessageFont)
    ensures
        font == if len_bytes >= SMALL_FONT_MIN_LEN { MessageFont::Small } else { MessageFont::Normal },
{
    if len_bytes >= SMALL_FONT_MIN_LEN {
        MessageFont::Small
    } else {
        MessageFont::Normal
    }
}

// ---------------------------------------------------------------------
// Text.
// ---------------------------------------------------------------------

/// Length of the longest prefix of `s` without `stop`.
pub open spec fn prefix_len_until(s: Seq<char>, stop: char) -> nat
    decreases s.len(),
{
    if s.len() == 0 || s[0] == stop {
        0
    } else {
        1 + prefix_len_until(s.drop_first(), stop)
    }
}

/// `s` without its trailing characters that satisfy `drop`.
pub open spec fn trim_end_where(s: Seq<char>, drop: spec_fn(char) -> bool) -> Seq<char>
    decreases s.len(),
{
    if s.len() > 0 && drop(s.last()) {
        trim_end_where(s.drop_last(), drop)
    } else {
        s
    }
}

/// `s` without its leading characters that satisfy `drop`.
pub open spec fn trim_start_where(s: Seq<char>, drop: spec_fn(char) -> bool) -> Seq<char>
    decreases s.len(),
{
    if s.len() > 0 && drop(s[0]) {
        trim_start_where(s.drop_first(), drop)
    } else {
        s
    }
}

/// The characters trimmed off the end of a message line.
pub open spec fn is_line_padding(c: char) -> bool {
    c == '\r' || c == '\t' || c == ' '
}

/// The characters with the Unicode `White_Space` property.
pub open spec fn is_white_space(c: char) -> bool {
    let v: u32 = c as u32;
    ||| 0x09 <= v <= 0x0D
    ||| v == 0x20
    ||| v == 0x85
    ||| v == 0xA0
    ||| v == 0x1680
    ||| 0x2000 <= v <= 0x200A
    ||| v == 0x2028
    ||| v == 0x2029
    ||| v == 0x202F
    ||| v == 0x205F
    ||| v == 0x3000
}

/// The line of a message that is shown: its first line, without trailing
/// carriage returns, tabs and spaces.
pub open spec fn message_text(content: Seq<char>) -> Seq<char> {
    trim_end_where(content.take(prefix_len_until(content, '\n') as int), |c: char| is_line_padding(c))
}

/// The first space-separated field of `contents`, trimmed of white space on
/// both ends.
pub open spec fn first_field(contents: Seq<char>) -> Seq<char> {
    let field = contents.take(prefix_len_until(contents, ' ') as int);
    trim_start_where(trim_end_where(field, |c: char| is_white_space(c)), |c: char| is_white_space(c))
}

proof fn lemma_prefix_len_step(s: Seq<char>, stop: char, i: int)
    requires
        0 <= i < s.len(),
        s[i] != stop,
    ensures
        prefix_len_until(s.skip(i), stop) == 1 + prefix_len_until(s.skip(i + 1), stop),
{
    assert(s.skip(i).drop_first() =~= s.skip(i + 1));
}

/// `prefix_len_until(s, stop)` is the index of the first `stop` in `s`, or
/// its length when there is none.
proof fn lemma_prefix_len_until(s: Seq<char>, stop: char)
    ensures
        prefix_len_until(s, stop) <= s.len(),
        forall|j: int| 0 <= j < prefix_len_until(s, stop) ==> s[j] != stop,
        prefix_len_until(s, stop) < s.len() ==> s[prefix_len_until(s, stop) as int] == stop,
    decreases s.len(),
{
    if s.len() > 0 && s[0] != stop {
        let t = s.drop_first();
        lemma_prefix_len_until(t, stop);
        assert forall|j: int| 0 <= j < prefix_len_until(s, stop) implies s[j] != stop by {
            if j > 0 {
                assert(s[j] == t[j - 1]);
            }
        }
    }
}

/// `trim_end_where(s, drop)` is a prefix of `s` after which every character
/// satisfies `drop`, and whose own last character does not.
proof fn lemma_trim_end_where(s: Seq<char>, drop: spec_fn(char) -> bool)
    ensures
        trim_end_where(s, drop).len() <= s.len(),
        trim_end_where(s, drop) == s.take(trim_end_where(s, drop).len() as int),
        forall|j: int| trim_end_where(s, drop).len() <= j < s.len() ==> drop(s[j]),
        trim_end_where(s, drop).len() > 0 ==> !drop(trim_end_where(s, drop).last()),
    decreases s.len(),
{
    if s.len() > 0 && drop(s.last()) {
        let t = s.drop_last();
        lemma_trim_end_where(t, drop);
        let r = trim_end_where(t, drop);
        assert(t.take(r.len() as int) =~= s.take(r.len() as int));
        assert forall|j: int| r.len() <= j < s.len() implies drop(s[j]) by {
            if j < t.len() {
                assert(s[j] == t[j]);
            }
        }
    } else {
        assert(s.take(s.len() as int) =~= s);
    }
}

/// `trim_start_where(s, drop)` is a suffix of `s` before which every
/// character satisfies `drop`, and whose own first character does not.
proof fn lemma_trim_start_where(s: Seq<char>, drop: spec_fn(char) -> bool)
    ensures
        trim_start_where(s, drop).len() <= s.len(),
        trim_start_where(s, drop) == s.skip(s.len() - trim_start_where(s, drop).len()),
        forall|j: int| 0 <= j < s.len() - trim_start_where(s, drop).len() ==> drop(s[j]),
        trim_start_where(s, drop).len() > 0 ==> !drop(trim_start_where(s, drop)[0]),
    decreases s.len(),
{
    if s.len() > 0 && drop(s[0]) {
        let t = s.drop_first();
        lemma_trim_start_where(t, drop);
        let r = trim_start_where(t, drop);
        assert(t.skip(t.len() - r.len()) =~= s.skip(s.len() - r.len()));
        assert forall|j: int| 0 <= j < s.len() - r.len() implies drop(s[j]) by {
            if j > 0 {
                assert(s[j] == t[j - 1]);
            }
        }
    } else {
        assert(s.skip(0) =~= s);
    }
}

/// The load-average field is the text before the first space with white
/// space trimmed off both ends: a run `start..end` of that text, with only
/// white space before and after it, that neither begins nor ends in white
/// space.
pub proof fn lemma_load_average_is_first_field(contents: Seq<char>)
    ensures
        ({
            let field = first_field(contents);
            let n = prefix_len_until(contents, ' ');
            &&& n <= contents.len()
            &&& forall|j: int| 0 <= j < n ==> contents[j] != ' '
            &&& n < contents.len() ==> contents[n as int] == ' '
            &&& exists|start: int, end: int|
                {
                    &&& 0 <= start <= end <= n
                    &&& field == contents.subrange(start, end)
                    &&& forall|j: int| 0 <= j < start ==> is_white_space(#[trigger] contents[j])
                    &&& forall|j: int| end <= j < n ==> is_white_space(#[trigger] contents[j])
                }
            &&& field.len() > 0 ==> !is_white_space(field[0]) && !is_white_space(field.last())
        }),
{
    let n = prefix_len_until(contents, ' ');
    lemma_prefix_len_until(contents, ' ');
    let ws = |c: char| is_white_space(c);
    let head = contents.take(n as int);
    lemma_trim_end_where(head, ws);
    let trimmed = trim_end_where(head, ws);
    let end: int = trimmed.len() as int;
    lemma_trim_start_where(trimmed, ws);
    let field = first_field(contents);
    assert(field == trim_start_where(trimmed, ws));
    let start: int = end - field.len();
    assert(trimmed =~= contents.take(end));
    assert(field =~= contents.subrange(start, end));
    assert forall|j: int| 0 <= j < start implies is_white_space(#[trigger] contents[j]) by {
        assert(ws(trimmed[j]));
    }
    assert forall|j: int| end <= j < n implies is_white_space(#[trigger] contents[j]) by {
        assert(ws(head[j]));
    }
    if field.len() > 0 {
        assert(field.last() == trimmed.last());
    }
}

/// The shown line of a message is its whole first line, whatever its
/// length, with only trailing carriage returns, tabs and spaces removed: it
/// is a prefix of the text before the first newline, all that follows it on
/// that line is such padding, and it does not itself end in padding.
pub proof fn lemma_message_line_is_first_line(content: Seq<char>)
    ensures
        ({
            let line = message_text(content);
            let n = prefix_len_until(content, '\n');
            &&& n <= content.len()
            &&& forall|j: int| 0 <= j < n ==> content[j] != '\n'
            &&& n < content.len() ==> content[n as int] == '\n'
            &&& line.len() <= n
            &&& line == content.take(line.len() as int)
            &&& forall|j: int| line.len() <= j < n ==> is_line_padding(content[j])
            &&& line.len() > 0 ==> !is_line_padding(line.last())
        }),
{
    let n = prefix_len_until(content, '\n');
    lemma_prefix_len_until(content, '\n');
    let first = content.take(n as int);
    let pad = |c: char| is_line_padding(c);
    lemma_trim_end_where(first, pad);
    let line = message_text(content);
    assert(line == trim_end_where(first, pad));
    assert(first.take(line.len() as int) =~= content.take(line.len() as int));
    assert forall|j: int| line.len() <= j < n implies is_line_padding(content[j]) by {
        assert(pad(first[j]));
    }
}

/// Index of the first `stop` in `s`, or its length if there is none.
fn scan_until(s: &[char], stop: char) -> (n: usize)
    ensures
        n == prefix_len_until(s@, stop),
        n <= s@.len(),
{
    let mut i: usize = 0;
    assert(s@.skip(0) =~= s@);
    while i < s.len() && s[i] != stop
        invariant
            i <= s@.len(),
            prefix_len_until(s@, stop) == i + prefix_len_until(s@.skip(i as int), stop),
        decreases s@.len() - i,
    {
        proof {
            lemma_prefix_len_step(s@, stop, i as int);
        }
        i = i + 1;
    }
    i
}

/// Whether `c` has the Unicode `White_Space` property.
pub fn is_white_space_char(c: char) -> (r: bool)
    ensures
        r == is_white_space(c),
{
    let v: u32 = c as u32;
    (0x09 <= v && v <= 0x0D) || v == 0x20 || v == 0x85 || v == 0xA0 || v == 0x1680 || (0x2000 <= v
        && v <= 0x200A) || v == 0x2028 || v == 0x2029 || v == 0x202F || v == 0x205F || v == 0x3000
}

/// The line of a message file to show: its first line without trailing
/// carriage returns, tabs and spaces.
pub fn message_line(content: &[char]) -> (line: Vec<char>)
    ensures
        line@ == message_text(content@),
{
    let cut: usize = scan_until(content, '\n');
    let mut end: usize = cut;
    while end > 0 && (content[end - 1] == '\r' || content[end - 1] == '\t' || content[end - 1] == ' ')
        invariant
            end <= cut <= content@.len(),
            trim_end_where(content@.take(cut as int), |c: char| is_line_padding(c))
                == trim_end_where(content@.take(end as int), |c: char| is_line_padding(c)),
        decreases end,
    {
        assert(content@.take(end as int).drop_last() =~= content@.take(end - 1));
        end = end - 1;
    }
    let mut line: Vec<char> = Vec::new();
    let mut i: usize = 0;
    while i < end
        invariant
            i <= end <= content@.len(),
            line@ == content@.take(i as int),
        decreases end - i,
    {
        line.push(content[i]);
        assert(content@.take(i + 1) =~= content@.take(i as int).push(content@[i as int]));
        i = i + 1;
    }
    assert(content@.take(cut as int).take(end as int) =~= content@.take(end as int));
    line
}


/// The first field of a load-average report (`/proc/loadavg`): everything
/// before the first space, trimmed of white space on both ends.
pub fn load_average_field(contents: &[char]) -> (field: Vec<char>)
    ensures
        field@ == first_field(contents@),
{
    let cut: usize = scan_until(contents, ' ');
    let mut end: usize = cut;
    while end > 0 && is_white_space_char(contents[end - 1])
        invariant
            end <= cut <= contents@.len(),
            trim_end_where(contents@.take(cut as int), |c: char| is_white_space(c))
                == trim_end_where(contents@.take(end as int), |c: char| is_white_space(c)),
        decreases end,
    {
        assert(contents@.take(end as int).drop_last() =~= contents@.take(end - 1));
        end = end - 1;
    }
    assert(trim_end_where(contents@.take(end as int), |c: char| is_white_space(c)) == contents@.take(end as int));
    let mut start: usize = 0;
    assert(contents@.subrange(0, end as int) =~= contents@.take(end as int));
    while start < end && is_white_space_char(contents[start])
        invariant
            start <= end <= contents@.len(),
            trim_start_where(contents@.take(end as int), |c: char| is_white_space(c))
                == trim_start_where(contents@.subrange(start as int, end as int), |c: char| is_white_space(c)),
        decreases end - start,
    {
        assert(contents@.subrange(start as int, end as int).drop_first() =~= contents@.subrange(start + 1, end as int));
        start = start + 1;
    }
    let mut field: Vec<char> = Vec::new();
    let mut i: usize = start;
    while i < end
        invariant
            start <= i <= end <= contents@.len(),
            field@ == contents@.subrange(start as int, i as int),
        decreases end - i,
    {
        field.push(contents[i]);
        assert(contents@.subrange(start as int, i + 1) =~= contents@.subrange(start as int, i as int).push(contents@[i as int]));
        i = i + 1;
    }
    field
}

} // verus!
