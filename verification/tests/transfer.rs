use ssd1315::ssd1315::SSD1315;
use ssd1315::transfer::{Action, Transfer};

/// Runs a transfer; `fails(i)` says whether the `i`-th write fails. The
/// writes handed out and the final action.
fn run(t: &mut Transfer, d: &mut SSD1315, fails: impl Fn(usize) -> bool) -> (Vec<[u8; 2]>, Action) {
    let mut writes = Vec::new();
    loop {
        match t.poll(d) {
            Action::Write(c, b) => {
                let i = writes.len();
                writes.push([c, b]);
                t.report(!fails(i));
            }
            other => return (writes, other),
        }
    }
}

fn commands(cs: &[u8]) -> Vec<[u8; 2]> {
    cs.iter().map(|c| [0x00, *c]).collect()
}

const DISPLAY_COMMANDS: [u8; 7] = [0xaf, 0x21, 0x00, 0x7f, 0x22, 0x00, 0x07];

#[test]
fn display_sends_commands_then_every_byte_of_the_buffer() {
    let mut d = SSD1315::new();
    d.draw_pixel(0, 0, 1);
    d.draw_pixel(127, 63, 1);
    let mut t = d.display();
    let (writes, end) = run(&mut t, &mut d, |_| false);
    assert_eq!(end, Action::Done(1024));
    assert_eq!(&writes[..7], &commands(&DISPLAY_COMMANDS)[..]);
    assert_eq!(writes.len(), 7 + 1024);
    assert_eq!(writes[7], [0x40, 0x01]);
    assert_eq!(writes[7 + 1023], [0x40, 0x80]);
    assert!(writes[8..7 + 1023].iter().all(|w| *w == [0x40, 0]));
    // the buffer is only read
    assert_eq!(d.byte(0), 0x01);
}

#[test]
fn a_failed_command_stops_the_program() {
    let mut d = SSD1315::new();
    let mut t = d.display();
    let (writes, end) = run(&mut t, &mut d, |i| i == 2);
    assert_eq!(end, Action::Failed);
    assert_eq!(writes.len(), 3);
    assert_eq!(t.poll(&mut d), Action::Failed);
    t.report(true);
    assert_eq!(t.poll(&mut d), Action::Failed);
}

#[test]
fn failed_data_writes_are_skipped_and_not_counted() {
    let mut d = SSD1315::new();
    let mut t = d.display();
    let (writes, end) = run(&mut t, &mut d, |i| i >= 7 && i % 2 == 0);
    assert_eq!(writes.len(), 7 + 1024);
    assert_eq!(end, Action::Done(512));
}

#[test]
fn a_write_is_handed_out_again_until_reported() {
    let mut d = SSD1315::new();
    let mut t = d.sleep();
    assert_eq!(t.poll(&mut d), Action::Write(0x00, 0xae));
    assert_eq!(t.poll(&mut d), Action::Write(0x00, 0xae));
    t.report(true);
    assert_eq!(t.poll(&mut d), Action::Write(0x00, 0x8d));
}

#[test]
fn report_without_a_write_changes_nothing() {
    let mut d = SSD1315::new();
    let mut t = d.sleep();
    t.report(false);
    assert_eq!(t.poll(&mut d), Action::Write(0x00, 0xae));
}

#[test]
fn init_resets_configures_and_sends_a_dark_buffer() {
    let mut d = SSD1315::new();
    d.draw_line(0, 0, 127, 0);
    let mut t = d.init();
    let (writes, end) = run(&mut t, &mut d, |_| false);
    let config = [
        0xe3, 0xae, 0xd5, 0x80, 0xa8, 0x3f, 0xd3, 0x00, 0x40, 0x8d, 0x14, 0x20, 0x00, 0xa1, 0xc8,
        0xda, 0x12, 0x81, 0xcf, 0xd9, 0xf1, 0xd8, 0x40, 0x2e, 0xa6,
    ];
    assert_eq!(&writes[..25], &commands(&config)[..]);
    assert_eq!(&writes[25..32], &commands(&DISPLAY_COMMANDS)[..]);
    assert!(writes[32..].iter().all(|w| *w == [0x40, 0]));
    assert_eq!(writes.len(), 32 + 1024);
    assert_eq!(end, Action::Done(1024));
    assert_eq!(d.byte(0), 0);
}

#[test]
fn init_failing_before_the_clear_keeps_the_buffer() {
    let mut d = SSD1315::new();
    d.draw_pixel(0, 0, 1);
    let mut t = d.init();
    let (writes, end) = run(&mut t, &mut d, |i| i == 0);
    assert_eq!(writes, vec![[0x00, 0xe3]]);
    assert_eq!(end, Action::Failed);
    assert_eq!(d.byte(0), 1);
}

#[test]
fn init_failing_after_the_clear_leaves_the_buffer_dark() {
    let mut d = SSD1315::new();
    d.draw_pixel(0, 0, 1);
    let mut t = d.init();
    let (_, end) = run(&mut t, &mut d, |i| i == 25);
    assert_eq!(end, Action::Failed);
    assert_eq!(d.byte(0), 0);
}

#[test]
fn reset_sends_the_soft_reset_command() {
    let mut d = SSD1315::new();
    let mut t = d.reset();
    let (writes, end) = run(&mut t, &mut d, |_| false);
    assert_eq!(writes, commands(&[0xe3]));
    assert_eq!(end, Action::Done(0));
}

#[test]
fn contrast_programs() {
    let mut d = SSD1315::new();
    let mut t = d.set_contrast(0xcf);
    assert_eq!(run(&mut t, &mut d, |_| false).0, commands(&[0x81, 0xcf]));
    let mut t = d.set_dim();
    assert_eq!(run(&mut t, &mut d, |_| false).0, commands(&[0x81, 0x0f]));
}

#[test]
fn sleep_turns_the_panel_and_charge_pump_off_and_keeps_the_buffer() {
    let mut d = SSD1315::new();
    d.draw_pixel(1, 1, 1);
    let mut t = d.sleep();
    let (writes, end) = run(&mut t, &mut d, |_| false);
    assert_eq!(writes, commands(&[0xae, 0x8d, 0x10]));
    assert_eq!(end, Action::Done(0));
    assert_eq!(d.byte(1), 0x02);
}

#[test]
fn wake_turns_the_panel_on_and_sends_the_buffer() {
    let mut d = SSD1315::new();
    d.draw_pixel(1, 1, 1);
    let mut t = d.wake();
    let (writes, end) = run(&mut t, &mut d, |_| false);
    assert_eq!(&writes[..3], &commands(&[0x8d, 0x14, 0xaf])[..]);
    assert_eq!(&writes[3..10], &commands(&DISPLAY_COMMANDS)[..]);
    assert_eq!(writes[11], [0x40, 0x02]);
    assert_eq!(end, Action::Done(1024));
}

#[test]
fn wake_undoes_sleep() {
    let mut d = SSD1315::new();
    d.draw_pixel(5, 5, 1);
    let before: Vec<u8> = (0..1024).map(|i| d.byte(i)).collect();
    let mut s = d.sleep();
    let (sw, send) = run(&mut s, &mut d, |_| false);
    let mut w = d.wake();
    let (ww, wend) = run(&mut w, &mut d, |_| false);
    assert_eq!(sw, commands(&[0xae, 0x8d, 0x10]));
    assert_eq!(send, Action::Done(0));
    assert_eq!(&ww[..3], &commands(&[0x8d, 0x14, 0xaf])[..]);
    assert_eq!(wend, Action::Done(1024));
    let data: Vec<u8> = ww[10..].iter().map(|w| w[1]).collect();
    assert_eq!(data, before);
    let after: Vec<u8> = (0..1024).map(|i| d.byte(i)).collect();
    assert_eq!(after, before);
}

#[test]
fn sleep_keeps_the_buffer_even_when_writes_fail() {
    let mut d = SSD1315::new();
    d.draw_pixel(9, 9, 1);
    let mut s = d.sleep();
    let (_, end) = run(&mut s, &mut d, |i| i == 1);
    assert_eq!(end, Action::Failed);
    assert_eq!(d.byte(9 + 128), 0x02);
}

#[test]
fn step_index_follows_the_program() {
    let mut d = SSD1315::new();
    let mut t = d.sleep();
    assert_eq!(t.step_index(), 0);
    let _ = t.poll(&mut d);
    t.report(true);
    assert_eq!(t.step_index(), 1);
}
