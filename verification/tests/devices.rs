use bogokernel::console::{
    init_console, init_fb_console, update_cursor, update_cursor_blink, write_char, write_char_internal, write_str,
    ConsoleChoice, ConsoleOp, ConsoleState, Glyph,
};
use bogokernel::display::{display_mode, parse_cmdline, set_display_mode, DisplayConfig, DisplayMode, FramebufferInfo};
use bogokernel::keyboard::{
    has_input, keycode_to_ascii, pop_input, process_event, push_input, InputBuffer, VirtioInputEvent,
};
use bogokernel::logging::{debug_write, debug_writeln, get_log_level, set_log_level, should_log, LogLevel, Logger};
use bogokernel::sbi::{set_timer, SbiCall};
use bogokernel::timer::{calibrate_bogomips, init};
use bogokernel::uapi::{is_err_sentinel, sys_result, SysErr};
use bogokernel::uart::{emit, Uart};
use bogokernel::usys::{
    read_line, read_line_stdin, read_line_stdin_silent, write_all, write_progress, CStrBuf, Fd, IoWrite, Progress,
};
use std::cell::RefCell;

#[test]
fn ring_holds_255_bytes_in_order() {
    let mut b = InputBuffer::new();
    assert!(b.is_empty());
    assert_eq!(b.len(), 0);
    assert_eq!(b.pop(), None);
    for i in 0..255u32 {
        assert!(b.push(i as u8));
    }
    assert_eq!(b.len(), 255);
    assert!(!b.push(99));
    assert_eq!(b.len(), 255);
    for i in 0..100u32 {
        assert_eq!(b.pop(), Some(i as u8));
    }
    for i in 0..100u32 {
        assert!(b.push(200 + (i % 50) as u8));
    }
    assert_eq!(b.len(), 255);
    for i in 100..255u32 {
        assert_eq!(b.pop(), Some(i as u8));
    }
    for i in 0..100u32 {
        assert_eq!(b.pop(), Some(200 + (i % 50) as u8));
    }
    assert!(b.is_empty());
    assert_eq!(b.pop(), None);
}

#[test]
fn input_helpers_drop_what_does_not_fit() {
    let mut b = InputBuffer::new();
    assert!(!has_input(&b));
    for _ in 0..300 {
        push_input(&mut b, b'x');
    }
    assert!(has_input(&b));
    assert_eq!(b.len(), 255);
    assert_eq!(pop_input(&mut b), Some(b'x'));
    assert_eq!(b.len(), 254);
}

#[test]
fn key_codes_follow_the_us_layout() {
    let rows: [(u16, &[u8]); 4] =
        [(2, b"1234567890-="), (16, b"qwertyuiop[]"), (30, b"asdfghjkl;'`"), (44, b"zxcvbnm,./")];
    for (first, keys) in rows {
        for (i, k) in keys.iter().enumerate() {
            assert_eq!(keycode_to_ascii(first + i as u16), Some(*k));
        }
    }
    assert_eq!(keycode_to_ascii(1), Some(0x1b));
    assert_eq!(keycode_to_ascii(14), Some(0x08));
    assert_eq!(keycode_to_ascii(15), Some(b'\t'));
    assert_eq!(keycode_to_ascii(28), Some(b'\n'));
    assert_eq!(keycode_to_ascii(43), Some(b'\\'));
    assert_eq!(keycode_to_ascii(57), Some(b' '));
    for code in [0u16, 29, 42, 54, 55, 56, 58, 100, 0xffff] {
        assert_eq!(keycode_to_ascii(code), None);
    }
}

#[test]
fn only_key_presses_type() {
    let mut b = InputBuffer::new();
    process_event(&mut b, &VirtioInputEvent { event_type: 1, code: 30, value: 1 });
    process_event(&mut b, &VirtioInputEvent { event_type: 1, code: 30, value: 0 });
    process_event(&mut b, &VirtioInputEvent { event_type: 1, code: 30, value: 2 });
    process_event(&mut b, &VirtioInputEvent { event_type: 2, code: 31, value: 1 });
    process_event(&mut b, &VirtioInputEvent { event_type: 0, code: 0, value: 0 });
    process_event(&mut b, &VirtioInputEvent { event_type: 1, code: 42, value: 1 });
    process_event(&mut b, &VirtioInputEvent { event_type: 1, code: 28, value: 1 });
    assert_eq!(b.len(), 2);
    assert_eq!(b.pop(), Some(b'a'));
    assert_eq!(b.pop(), Some(b'\n'));
}

#[test]
fn boot_arguments_select_the_display() {
    let cases = [
        ("", DisplayMode::Ansi),
        ("display=gpu", DisplayMode::Gpu),
        ("  console=ttyS0\tdisplay=gpu  quiet ", DisplayMode::Gpu),
        ("display=gpu display=ansi", DisplayMode::Ansi),
        ("display=ansi display=gpu", DisplayMode::Gpu),
        ("display=GPU", DisplayMode::Ansi),
        ("display=gpu2", DisplayMode::Ansi),
        ("display=", DisplayMode::Ansi),
        ("xdisplay=gpu", DisplayMode::Ansi),
        ("display =gpu", DisplayMode::Ansi),
        ("display=gpu\u{3000}x", DisplayMode::Gpu),
    ];
    for (line, want) in cases {
        let mut cfg = DisplayConfig::new();
        parse_cmdline(&mut cfg, line);
        assert_eq!(display_mode(&cfg), want, "{:?}", line);
    }
    // words that do not name the display leave it as it is
    let mut cfg = DisplayConfig::new();
    set_display_mode(&mut cfg, DisplayMode::Gpu);
    parse_cmdline(&mut cfg, "quiet splash");
    assert_eq!(display_mode(&cfg), DisplayMode::Gpu);
    parse_cmdline(&mut cfg, "display=x");
    assert_eq!(display_mode(&cfg), DisplayMode::Ansi);
}

fn console(w: usize, h: usize) -> ConsoleState {
    let fb = FramebufferInfo { width: w * 8 + 3, height: h * 16 + 15, stride: w * 8 + 3, phys_addr: 0, size: 0 };
    init_fb_console(Some(&fb)).unwrap()
}

#[test]
fn console_starts_at_the_top_left() {
    let s = console(80, 25);
    assert_eq!((s.cursor_x, s.cursor_y, s.width_chars, s.height_chars), (0, 0, 80, 25));
    assert_eq!((s.fg_color, s.bg_color, s.cursor_visible, s.cursor_blink_counter), (0x00FF_FFFF, 0, true, 0));
    assert_eq!(init_fb_console(None), Err(()));
    let fb = FramebufferInfo { width: 640, height: 480, stride: 640, phys_addr: 0, size: 0 };
    assert_eq!(init_console(DisplayMode::Ansi, Some(&fb)), ConsoleChoice::Serial);
    assert_eq!(init_console(DisplayMode::Gpu, None), ConsoleChoice::Serial);
    match init_console(DisplayMode::Gpu, Some(&fb)) {
        ConsoleChoice::Framebuffer(s) => assert_eq!((s.width_chars, s.height_chars), (80, 30)),
        ConsoleChoice::Serial => panic!("the framebuffer was there"),
    }
}

fn no_op() -> ConsoleOp {
    ConsoleOp { glyph: None, scroll: false }
}

#[test]
fn console_moves_the_cursor() {
    let mut s = console(20, 3);
    assert_eq!(
        write_char_internal(&mut s, b'A'),
        ConsoleOp { glyph: Some(Glyph { x: 0, y: 0, c: b'A' }), scroll: false }
    );
    assert_eq!((s.cursor_x, s.cursor_y), (1, 0));
    assert_eq!(write_char_internal(&mut s, b'\t'), no_op());
    assert_eq!((s.cursor_x, s.cursor_y), (8, 0));
    assert_eq!(write_char_internal(&mut s, b'\t'), no_op());
    assert_eq!((s.cursor_x, s.cursor_y), (16, 0));
    assert_eq!(write_char_internal(&mut s, b'\t'), no_op());
    assert_eq!((s.cursor_x, s.cursor_y), (0, 1));
    assert_eq!(write_char_internal(&mut s, 0x08), no_op());
    assert_eq!((s.cursor_x, s.cursor_y), (0, 1));
    write_char_internal(&mut s, b'~');
    write_char_internal(&mut s, b' ');
    assert_eq!(
        write_char_internal(&mut s, 0x08),
        ConsoleOp { glyph: Some(Glyph { x: 1, y: 1, c: b' ' }), scroll: false }
    );
    assert_eq!((s.cursor_x, s.cursor_y), (1, 1));
    assert_eq!(write_char_internal(&mut s, b'\r'), no_op());
    assert_eq!((s.cursor_x, s.cursor_y), (0, 1));
    assert_eq!(write_char_internal(&mut s, b'\n'), no_op());
    assert_eq!((s.cursor_x, s.cursor_y), (0, 2));
    assert_eq!(write_char_internal(&mut s, b'\n'), ConsoleOp { glyph: None, scroll: true });
    assert_eq!((s.cursor_x, s.cursor_y), (0, 2));
    for c in [0u8, 7, 27, 31, 127, 128, 255] {
        assert_eq!(write_char_internal(&mut s, c), no_op());
        assert_eq!((s.cursor_x, s.cursor_y), (0, 2));
    }
}

#[test]
fn console_wraps_and_scrolls_at_the_end_of_the_row() {
    let mut s = console(3, 2);
    let ops = write_str(&mut s, "abcdefg");
    assert_eq!(ops.len(), 7);
    assert_eq!(ops[2], ConsoleOp { glyph: Some(Glyph { x: 2, y: 0, c: b'c' }), scroll: false });
    assert_eq!(ops[3], ConsoleOp { glyph: Some(Glyph { x: 0, y: 1, c: b'd' }), scroll: false });
    assert_eq!(ops[5], ConsoleOp { glyph: Some(Glyph { x: 2, y: 1, c: b'f' }), scroll: true });
    assert_eq!(ops[6], ConsoleOp { glyph: Some(Glyph { x: 0, y: 1, c: b'g' }), scroll: false });
    assert_eq!((s.cursor_x, s.cursor_y), (1, 1));
    assert_eq!(s.cursor_blink_counter, 1);
    assert!(write_str(&mut s, "").is_empty());
    assert_eq!(s.cursor_blink_counter, 2);
    // a screen without room stays put
    let mut s = console(0, 0);
    assert_eq!(write_char(&mut s, b'x'), ConsoleOp { glyph: Some(Glyph { x: 0, y: 0, c: b'x' }), scroll: true });
    assert_eq!((s.cursor_x, s.cursor_y), (0, 0));
}

#[test]
fn cursor_blinks_every_thirtieth_update() {
    let mut s = console(10, 10);
    for i in 1..=29 {
        update_cursor(&mut s);
        assert_eq!((s.cursor_visible, s.cursor_blink_counter), (true, i));
    }
    update_cursor(&mut s);
    assert_eq!((s.cursor_visible, s.cursor_blink_counter), (false, 0));
    for _ in 0..30 {
        update_cursor_blink(DisplayMode::Ansi, &mut s);
    }
    assert_eq!((s.cursor_visible, s.cursor_blink_counter), (false, 0));
    for _ in 0..30 {
        update_cursor_blink(DisplayMode::Gpu, &mut s);
    }
    assert_eq!((s.cursor_visible, s.cursor_blink_counter), (true, 0));
    s.cursor_blink_counter = usize::MAX;
    update_cursor(&mut s);
    assert_eq!((s.cursor_visible, s.cursor_blink_counter), (false, 0));
}

#[test]
fn log_levels_filter_from_their_threshold() {
    let mut log = Logger::new();
    assert_eq!(get_log_level(&log), LogLevel::Info);
    assert!(!should_log(&log, LogLevel::Trace));
    assert!(!should_log(&log, LogLevel::Debug));
    assert!(should_log(&log, LogLevel::Info));
    assert!(should_log(&log, LogLevel::Warn));
    assert!(should_log(&log, LogLevel::Error));
    set_log_level(&mut log, LogLevel::Error);
    assert_eq!(get_log_level(&log), LogLevel::Error);
    assert!(!should_log(&log, LogLevel::Warn));
    assert!(should_log(&log, LogLevel::Error));
    set_log_level(&mut log, LogLevel::Trace);
    assert!(should_log(&log, LogLevel::Trace));
}

#[test]
fn serial_output_gets_carriage_returns() {
    let mut uart = Uart::new();
    debug_write(&mut uart, "a\nb");
    debug_writeln(&mut uart, "c\n");
    uart.write_byte(b'\n');
    uart.write_str("\r\n");
    assert_eq!(uart.tx, b"a\r\nbc\r\n\r\n\n\r\r\n".to_vec());
    let mut out = vec![1u8];
    emit(&mut out, b"\n\nx");
    assert_eq!(out, vec![1, 13, 10, 13, 10, b'x']);
    assert!(!uart.can_read());
    assert_eq!(uart.try_read_byte(), None);
    uart.rx.extend_from_slice(b"hi");
    assert!(uart.can_read());
    assert_eq!(uart.read_byte(), b'h');
    assert_eq!(uart.try_read_byte(), Some(b'i'));
    assert_eq!(uart.try_read_byte(), None);
}

#[test]
fn timer_call_splits_the_time() {
    assert_eq!(
        set_timer(0x1234_5678_9abc_def0),
        SbiCall { ext: 0x5449_4D45, fid: 0, a0: 0x1234_5678_9abc_def0, a1: 0x1234_5678, a2: 0 }
    );
    assert_eq!(set_timer(7).a1, 0);
    assert_eq!(init(1_000), 101_000);
    assert_eq!(init(u64::MAX - 1), u64::MAX);
}

#[test]
fn speed_estimate_follows_the_formula() {
    // 5000 loops of 1000 passes in one second: 5 million passes a second, 5.00
    assert_eq!(calibrate_bogomips(5_000, 10_000_000), 500);
    assert_eq!(calibrate_bogomips(5_000, 10_000_123), 499);
    assert_eq!(calibrate_bogomips(123_456, 10_000_000), 12_345);
    assert_eq!(calibrate_bogomips(0, 1), 0);
    assert_eq!(calibrate_bogomips(1, u64::MAX), 0);
    assert_eq!(calibrate_bogomips(u64::MAX, 1), u64::MAX);
    // larger than the product fits in 64 bits, the result still does
    assert_eq!(calibrate_bogomips(10_000_000_000_000, 10_000_000), 1_000_000_000_000);
}

#[test]
fn sentinel_is_the_largest_value() {
    assert!(is_err_sentinel(usize::MAX));
    assert!(!is_err_sentinel(usize::MAX - 1));
    assert!(!is_err_sentinel(0));
    assert_eq!(sys_result(usize::MAX), Err(SysErr::Fail));
    assert_eq!(sys_result(0), Ok(0));
    assert_eq!(Fd::stdin(), Fd(0));
    assert_eq!(Fd::stdout(), Fd(1));
    assert_eq!(Fd::stderr(), Fd(2));
}

#[test]
fn c_strings_are_cut_to_fit() {
    let s = CStrBuf::<8>::from_str("hello").unwrap();
    assert_eq!(s.as_bytes_with_nul(), b"hello\0");
    let s = CStrBuf::<8>::from_str("hello wide world").unwrap();
    assert_eq!(s.as_bytes_with_nul(), b"hello w\0");
    let s = CStrBuf::<8>::from_str("1234567").unwrap();
    assert_eq!(s.as_bytes_with_nul(), b"1234567\0");
    let s = CStrBuf::<1>::from_str("x").unwrap();
    assert_eq!(s.as_bytes_with_nul(), b"\0");
    let s = CStrBuf::<4>::from_str("").unwrap();
    assert_eq!(s.as_bytes_with_nul(), b"\0");
    assert!(CStrBuf::<8>::from_str("a\0b").is_err());
    assert!(CStrBuf::<2>::from_str("abc\0").is_err());
}

#[test]
fn lines_are_edited_as_they_come() {
    let r = read_line(b"helo\x08lo\rrest", 16, true);
    assert_eq!((r.line.as_slice(), r.used, r.done), (&b"hello"[..], 8, true));
    assert_eq!(r.echo, b"helo\x08 \x08lo\r\n".to_vec());
    let r = read_line(b"\x7f\x08ab\x7f\x7f\x7fc\n", 16, true);
    assert_eq!((r.line.as_slice(), r.used, r.done), (&b"c"[..], 9, true));
    assert_eq!(r.echo, b"ab\x08 \x08\x08 \x08c\r\n".to_vec());
    let r = read_line(b"abcdef\n", 3, true);
    assert_eq!((r.line.as_slice(), r.used, r.done), (&b"abc"[..], 7, true));
    assert_eq!(r.echo, b"abc\r\n".to_vec());
    let r = read_line(b"abc", 8, true);
    assert_eq!((r.line.as_slice(), r.used, r.done), (&b"abc"[..], 3, false));
    let r = read_line(b"", 8, true);
    assert_eq!((r.line.len(), r.used, r.done, r.echo.len()), (0, 0, false, 0));
    let r = read_line(b"abc\n", 0, true);
    assert_eq!((r.line.len(), r.used, r.done, r.echo.len()), (0, 0, true, 0));
    let r = read_line_stdin(b"ok\n", 8);
    assert_eq!((r.line.as_slice(), r.echo.as_slice()), (&b"ok"[..], &b"ok\r\n"[..]));
    let r = read_line_stdin_silent(b"ok\n", 8);
    assert_eq!((r.line.as_slice(), r.used, r.done, r.echo.len()), (&b"ok"[..], 3, true, 0));
    let r = read_line(b"ok\x08\n", 8, false);
    assert_eq!((r.line.as_slice(), r.echo.len()), (&b"o"[..], 0));
}

struct Chunked {
    step: usize,
    taken: RefCell<Vec<u8>>,
}

impl IoWrite for Chunked {
    fn write(&self, buf: &[u8]) -> Result<usize, SysErr> {
        if buf.first() == Some(&b'!') {
            return Err(SysErr::Fail);
        }
        let n = self.step.min(buf.len());
        self.taken.borrow_mut().extend_from_slice(&buf[..n]);
        Ok(if self.step > 100 { self.step } else { n })
    }
}

#[test]
fn write_all_writes_in_pieces() {
    let w = Chunked { step: 3, taken: RefCell::new(Vec::new()) };
    assert_eq!(write_all(&w, b"0123456789"), Ok(()));
    assert_eq!(*w.taken.borrow(), b"0123456789".to_vec());
    assert_eq!(write_all(&w, b""), Ok(()));
    assert_eq!(write_all(&w, b"abc!def"), Err(SysErr::Fail));
    let stuck = Chunked { step: 0, taken: RefCell::new(Vec::new()) };
    assert_eq!(write_all(&stuck, b"x"), Err(SysErr::Fail));
    assert_eq!(write_all(&stuck, b""), Ok(()));
    let liar = Chunked { step: 1000, taken: RefCell::new(Vec::new()) };
    assert_eq!(write_all(&liar, b"x"), Err(SysErr::Fail));
}

#[test]
fn each_answer_of_a_writer_has_its_sequel() {
    assert_eq!(write_progress(0, 10, Ok(3)), Progress::More(3));
    assert_eq!(write_progress(3, 10, Ok(6)), Progress::More(9));
    assert_eq!(write_progress(9, 10, Ok(1)), Progress::Done);
    assert_eq!(write_progress(0, 10, Ok(10)), Progress::Done);
    assert_eq!(write_progress(0, 10, Ok(11)), Progress::Failed(SysErr::Fail));
    assert_eq!(write_progress(4, 10, Ok(7)), Progress::Failed(SysErr::Fail));
    assert_eq!(write_progress(4, 10, Ok(usize::MAX)), Progress::Failed(SysErr::Fail));
    assert_eq!(write_progress(4, 10, Ok(0)), Progress::Failed(SysErr::Fail));
    assert_eq!(write_progress(4, 10, Err(SysErr::Fail)), Progress::Failed(SysErr::Fail));
    assert_eq!(write_progress(10, 10, Err(SysErr::Fail)), Progress::Done);
    assert_eq!(write_progress(11, 10, Ok(0)), Progress::Done);
    assert_eq!(write_progress(0, 0, Ok(5)), Progress::Done);
}

#[test]
fn write_all_hands_on_what_is_left() {
    let w = Chunked { step: 4, taken: RefCell::new(Vec::new()) };
    assert_eq!(write_all(&w, b"abcdefgh!x"), Err(SysErr::Fail));
    assert_eq!(*w.taken.borrow(), b"abcdefgh".to_vec());
}
