use ssd1306_driver_rs::status::{message_anchor, next_screen, status_layout, Screen};
use ssd1306_driver_rs::status::{
    is_white_space_char, load_average_field, message_font, message_line, panel_power,
    slow_refresh_due, PanelPower,
    wait_step, MessageFont, WaitStep, MESSAGE_DURATION_MS, REFRESH_INTERVAL_MS,
};

fn chars(s: &str) -> Vec<char> {
    s.chars().collect()
}

fn text(v: Vec<char>) -> String {
    v.into_iter().collect()
}

#[test]
fn wait_steps_poll_every_100ms_and_sum_to_total() {
    let mut waited: u64 = 0;
    let mut steps: Vec<u64> = Vec::new();
    loop {
        match wait_step(waited, 250, false) {
            WaitStep::Sleep(ms) => {
                steps.push(ms);
                waited += ms;
            }
            WaitStep::Finished => break,
            WaitStep::Blank => panic!("display-off flag was never set"),
        }
    }
    assert_eq!(steps, vec![100, 100, 50]);
    assert_eq!(waited, 250);
    assert_eq!(wait_step(0, REFRESH_INTERVAL_MS, false), WaitStep::Sleep(100));
    assert_eq!(wait_step(MESSAGE_DURATION_MS, MESSAGE_DURATION_MS, true), WaitStep::Finished);
}

#[test]
fn wait_blanks_when_flag_appears() {
    assert_eq!(wait_step(200, 500, true), WaitStep::Blank);
    assert_eq!(wait_step(0, 0, false), WaitStep::Finished);
}

#[test]
fn slow_refresh_due_cases() {
    assert!(slow_refresh_due(true, Some(0)));
    assert!(slow_refresh_due(false, None));
    assert!(!slow_refresh_due(false, Some(29_999)));
    assert!(slow_refresh_due(false, Some(30_000)));
}

#[test]
fn long_messages_use_the_small_font() {
    assert_eq!(message_font(19), MessageFont::Normal);
    assert_eq!(message_font(20), MessageFont::Small);
}

#[test]
fn message_line_takes_first_line_and_trims_its_end() {
    assert_eq!(text(message_line(&chars("Hello there \t\r\nsecond line"))), "Hello there");
    assert_eq!(text(message_line(&chars("  lead kept"))), "  lead kept");
    assert_eq!(text(message_line(&chars(""))), "");
    assert_eq!(text(message_line(&chars("\nonly second"))), "");
    assert_eq!(text(message_line(&chars("tail \r"))), "tail");
    for s in ["a\r\nb", "x y\t\n", "émoji ✓ \r", "no newline", "  \t\r"] {
        let expected: String = s
            .lines()
            .next()
            .unwrap_or("")
            .trim_end_matches(['\r', '\t', ' '])
            .to_string();
        assert_eq!(text(message_line(&chars(s))), expected);
    }
}

#[test]
fn load_average_field_is_first_trimmed_field() {
    assert_eq!(text(load_average_field(&chars("0.52 0.58 0.59 1/321 4567\n"))), "0.52");
    assert_eq!(text(load_average_field(&chars("1.00\n"))), "1.00");
    assert_eq!(text(load_average_field(&chars(""))), "");
    assert_eq!(text(load_average_field(&chars(" 0.1 0.2"))), "");
    for s in ["\t0.7\u{a0} 1", "\u{3000}x\u{2028}", "2.5"] {
        let expected: String = s.split(' ').next().map(|f| f.trim().to_string()).unwrap();
        assert_eq!(text(load_average_field(&chars(s))), expected);
    }
}

#[test]
fn white_space_matches_std_for_every_char() {
    for v in 0u32..=0x10FFFF {
        if let Some(c) = char::from_u32(v) {
            assert_eq!(is_white_space_char(c), c.is_whitespace(), "{v:#x}");
        }
    }
}

#[test]
fn panel_sleeps_when_flag_appears_and_wakes_when_gone() {
    assert_eq!(panel_power(true, false), PanelPower::Sleep);
    assert_eq!(panel_power(true, true), PanelPower::Keep);
    assert_eq!(panel_power(false, true), PanelPower::Wake);
    assert_eq!(panel_power(false, false), PanelPower::Keep);
}

#[test]
fn next_screen_precedence() {
    assert_eq!(next_screen(true, true, true), Screen::Shutdown);
    assert_eq!(next_screen(false, true, true), Screen::Off);
    assert_eq!(next_screen(false, false, true), Screen::Message);
    assert_eq!(next_screen(false, false, false), Screen::Status);
}

#[test]
fn layout_positions_for_128_wide_panel() {
    assert_eq!(status_layout(128), [(98, 0), (0, 0), (0, 8), (0, 16), (0, 25)]);
    assert_eq!(message_anchor(128, 32), (64, 16));
    assert_eq!(message_anchor(96, 16), (48, 8));
}
