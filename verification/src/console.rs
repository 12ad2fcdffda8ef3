//! The text console on the framebuffer: where the cursor goes for each byte
//! written, and what has to be drawn.

use vstd::prelude::*;
use vstd::string::StringSliceAdditionalSpecFns;
use crate::display::{DisplayMode, FramebufferInfo};

verus! {

/// Width of a character cell in pixels.
pub const FONT_WIDTH: usize = 8;

/// Height of a character cell in pixels.
pub const FONT_HEIGHT: usize = 16;

/// Columns between tab stops.
pub const TAB_STOP: usize = 8;

/// Cursor updates between two changes of its visibility.
pub const BLINK_PERIOD: usize = 30;

/// The console: cursor, size in characters, colours and blink state.
#[derive(Clone, Copy, Debug, PartialEq, Eq, Structural)]
pub struct ConsoleState {
    pub cursor_x: usize,
    pub cursor_y: usize,
    pub width_chars: usize,
    pub height_chars: usize,
    pub fg_color: u32,
    pub bg_color: u32,
    pub cursor_visible: bool,
    pub cursor_blink_counter: usize,
}

/// A character to draw in a cell of the screen.
#[derive(Clone, Copy, Debug, PartialEq, Eq, Structural)]
pub struct Glyph {
    pub x: usize,
    pub y: usize,
    pub c: u8,
}

/// What a written byte asks of the screen.
#[derive(Clone, Copy, Debug, PartialEq, Eq, Structural)]
pub struct ConsoleOp {
    /// A character to draw.
    pub glyph: Option<Glyph>,
    /// Whether the screen moves up by one row first.
    pub scroll: bool,
}

/// Which console the kernel uses.
#[derive(Clone, Copy, Debug, PartialEq, Eq, Structural)]
pub enum ConsoleChoice {
    /// The serial port.
    Serial,
    /// The framebuffer, starting in this state.
    Framebuffer(ConsoleState),
}

/// Whether the cursor lies on the screen or at its edge, and the screen is
/// not so large that counting past it overflows.
pub open spec fn console_wf(s: ConsoleState) -> bool {
    &&& s.cursor_x <= s.width_chars
    &&& s.cursor_y <= s.height_chars
    &&& s.width_chars <= usize::MAX - TAB_STOP
    &&& s.height_chars < usize::MAX
}

/// The state with the cursor at the start of the next row; on the last row
/// the screen scrolls and the cursor stays on it.
pub open spec fn next_row(s: ConsoleState) -> (ConsoleState, bool) {
    if s.cursor_y + 1 >= s.height_chars {
        (ConsoleState { cursor_x: 0, ..s }, true)
    } else {
        (ConsoleState { cursor_x: 0, cursor_y: (s.cursor_y + 1) as usize, ..s }, false)
    }
}

/// State and request after a byte was written: a line feed goes to the
/// next row, a carriage return to the start of the row, a tab to the next
/// tab stop or the next row, a backspace one column back, blanking it, and
/// a printable character is drawn and moves the cursor on, to the next row
/// at the end of one. Other bytes do nothing.
pub open spec fn written(s: ConsoleState, c: u8) -> (ConsoleState, ConsoleOp) {
    if c == 0x0a {
        (next_row(s).0, ConsoleOp { glyph: None, scroll: next_row(s).1 })
    } else if c == 0x0d {
        (ConsoleState { cursor_x: 0, ..s }, ConsoleOp { glyph: None, scroll: false })
    } else if c == 0x09 {
        let stop = (s.cursor_x / TAB_STOP + 1) * TAB_STOP;
        if stop < s.width_chars {
            (ConsoleState { cursor_x: stop as usize, ..s }, ConsoleOp { glyph: None, scroll: false })
        } else {
            (next_row(s).0, ConsoleOp { glyph: None, scroll: next_row(s).1 })
        }
    } else if c == 0x08 {
        if s.cursor_x > 0 {
            (
                ConsoleState { cursor_x: (s.cursor_x - 1) as usize, ..s },
                ConsoleOp {
                    glyph: Some(Glyph { x: (s.cursor_x - 1) as usize, y: s.cursor_y, c: 0x20u8 }),
                    scroll: false,
                },
            )
        } else {
            (s, ConsoleOp { glyph: None, scroll: false })
        }
    } else if 32 <= c <= 126 {
        let glyph = Some(Glyph { x: s.cursor_x, y: s.cursor_y, c });
        if s.cursor_x + 1 >= s.width_chars {
            (next_row(s).0, ConsoleOp { glyph, scroll: next_row(s).1 })
        } else {
            (ConsoleState { cursor_x: (s.cursor_x + 1) as usize, ..s }, ConsoleOp { glyph, scroll: false })
        }
    } else {
        (s, ConsoleOp { glyph: None, scroll: false })
    }
}

/// The state after one more cursor update: every thirtieth changes whether
/// the cursor shows.
pub open spec fn blinked(s: ConsoleState) -> ConsoleState {
    if s.cursor_blink_counter + 1 >= BLINK_PERIOD {
        ConsoleState { cursor_visible: !s.cursor_visible, cursor_blink_counter: 0, ..s }
    } else {
        ConsoleState { cursor_blink_counter: (s.cursor_blink_counter + 1) as usize, ..s }
    }
}

/// State and requests after the bytes from the `i`-th on were written.
pub open spec fn written_all(s: ConsoleState, bytes: Seq<u8>, i: int) -> (ConsoleState, Seq<ConsoleOp>)
    decreases bytes.len() - i,
{
    if i < 0 || i >= bytes.len() {
        (s, Seq::empty())
    } else {
        let step = written(s, bytes[i]);
        let rest = written_all(step.0, bytes, i + 1);
        (rest.0, seq![step.1] + rest.1)
    }
}

/// A console for a framebuffer: as many characters as fit, white on black,
/// the cursor showing at the top left. Fails without a framebuffer.
pub fn init_fb_console(fb: Option<&FramebufferInfo>) -> (r: Result<ConsoleState, ()>)
    ensures
        fb is None ==> r is Err,
        fb is Some ==> r == Ok::<ConsoleState, ()>(
            ConsoleState {
                cursor_x: 0,
                cursor_y: 0,
                width_chars: fb.unwrap().width / FONT_WIDTH,
                height_chars: fb.unwrap().height / FONT_HEIGHT,
                fg_color: 0x00FF_FFFF,
                bg_color: 0,
                cursor_visible: true,
                cursor_blink_counter: 0,
            },
        ) && console_wf(r.unwrap()),
{
    match fb {
        Some(info) => Ok(
            ConsoleState {
                cursor_x: 0,
                cursor_y: 0,
                width_chars: info.width / FONT_WIDTH,
                height_chars: info.height / FONT_HEIGHT,
                fg_color: 0x00FF_FFFF,
                bg_color: 0,
                cursor_visible: true,
                cursor_blink_counter: 0,
            },
        ),
        None => Err(()),
    }
}

fn to_next_row(state: &mut ConsoleState) -> (scroll: bool)
    requires
        console_wf(*old(state)),
    ensures
        console_wf(*final(state)),
        (*final(state), scroll) == next_row(*old(state)),
{
    state.cursor_x = 0;
    if state.cursor_y + 1 >= state.height_chars {
        true
    } else {
        state.cursor_y = state.cursor_y + 1;
        false
    }
}

/// Writes one byte: moves the cursor and says what to draw.
pub fn write_char_internal(state: &mut ConsoleState, c: u8) -> (op: ConsoleOp)
    requires
        console_wf(*old(state)),
    ensures
        console_wf(*final(state)),
        (*final(state), op) == written(*old(state), c),
{
    if c == 0x0a {
        let scroll = to_next_row(state);
        ConsoleOp { glyph: None, scroll }
    } else if c == 0x0d {
        state.cursor_x = 0;
        ConsoleOp { glyph: None, scroll: false }
    } else if c == 0x09 {
        let stop = (state.cursor_x / TAB_STOP + 1) * TAB_STOP;
        if stop < state.width_chars {
            state.cursor_x = stop;
            ConsoleOp { glyph: None, scroll: false }
        } else {
            let scroll = to_next_row(state);
            ConsoleOp { glyph: None, scroll }
        }
    } else if c == 0x08 {
        if state.cursor_x > 0 {
            state.cursor_x = state.cursor_x - 1;
            ConsoleOp { glyph: Some(Glyph { x: state.cursor_x, y: state.cursor_y, c: 0x20 }), scroll: false }
        } else {
            ConsoleOp { glyph: None, scroll: false }
        }
    } else if c >= 32 && c <= 126 {
        let glyph = Some(Glyph { x: state.cursor_x, y: state.cursor_y, c });
        if state.cursor_x + 1 >= state.width_chars {
            let scroll = to_next_row(state);
            ConsoleOp { glyph, scroll }
        } else {
            state.cursor_x = state.cursor_x + 1;
            ConsoleOp { glyph, scroll: false }
        }
    } else {
        ConsoleOp { glyph: None, scroll: false }
    }
}

/// Counts one cursor update.
pub fn update_cursor(state: &mut ConsoleState)
    ensures
        *final(state) == blinked(*old(state)),
        console_wf(*old(state)) ==> console_wf(*final(state)),
{
    if state.cursor_blink_counter >= BLINK_PERIOD - 1 {
        state.cursor_visible = !state.cursor_visible;
        state.cursor_blink_counter = 0;
    } else {
        state.cursor_blink_counter = state.cursor_blink_counter + 1;
    }
}

/// Writes one byte and counts a cursor update.
pub fn write_char(state: &mut ConsoleState, c: u8) -> (op: ConsoleOp)
    requires
        console_wf(*old(state)),
    ensures
        console_wf(*final(state)),
        *final(state) == blinked(written(*old(state), c).0),
        op == written(*old(state), c).1,
{
    let op = write_char_internal(state, c);
    update_cursor(state);
    op
}

/// Writes the bytes of a text and counts one cursor update.
pub fn write_str(state: &mut ConsoleState, s: &str) -> (ops: Vec<ConsoleOp>)
    requires
        console_wf(*old(state)),
    ensures
        console_wf(*final(state)),
        *final(state) == blinked(written_all(*old(state), s.spec_bytes(), 0).0),
        ops@ == written_all(*old(state), s.spec_bytes(), 0).1,
{
    let bytes = s.as_bytes();
    let n = bytes.len();
    let mut ops: Vec<ConsoleOp> = Vec::new();
    let ghost goal = written_all(*state, bytes@, 0);
    let mut i: usize = 0;
    proof {
        assert(ops@ + goal.1 =~= goal.1);
    }
    while i < n
        invariant
            i <= n,
            n == bytes@.len(),
            console_wf(*state),
            goal == written_all(*old(state), bytes@, 0),
            goal.0 == written_all(*state, bytes@, i as int).0,
            goal.1 == ops@ + written_all(*state, bytes@, i as int).1,
        decreases n - i,
    {
        let ghost before = *state;
        let ghost done = ops@;
        let op = write_char_internal(state, bytes[i]);
        ops.push(op);
        proof {
            let rest = written_all(*state, bytes@, i + 1);
            assert(done + (seq![op] + rest.1) =~= done.push(op) + rest.1);
        }
        i += 1;
    }
    proof {
        assert(ops@ + Seq::<ConsoleOp>::empty() =~= ops@);
    }
    update_cursor(state);
    ops
}

/// Chooses the console: the framebuffer where the boot arguments select it
/// and there is one, else the serial port.
pub fn init_console(mode: DisplayMode, fb: Option<&FramebufferInfo>) -> (r: ConsoleChoice)
    ensures
        mode == DisplayMode::Gpu && fb is Some ==> r is Framebuffer && console_wf(r->Framebuffer_0)
            && init_fb_console_state(*fb.unwrap()) == r->Framebuffer_0,
        mode != DisplayMode::Gpu || fb is None ==> r == ConsoleChoice::Serial,
{
    match mode {
        DisplayMode::Gpu => match init_fb_console(fb) {
            Ok(state) => ConsoleChoice::Framebuffer(state),
            Err(_) => ConsoleChoice::Serial,
        },
        DisplayMode::Ansi => ConsoleChoice::Serial,
    }
}

/// The state in which a console on a framebuffer starts.
pub open spec fn init_fb_console_state(fb: FramebufferInfo) -> ConsoleState {
    ConsoleState {
        cursor_x: 0,
        cursor_y: 0,
        width_chars: fb.width / FONT_WIDTH,
        height_chars: fb.height / FONT_HEIGHT,
        fg_color: 0x00FF_FFFF,
        bg_color: 0,
        cursor_visible: true,
        cursor_blink_counter: 0,
    }
}

/// A blink tick of the timer: counts a cursor update where the framebuffer
/// is the display.
pub fn update_cursor_blink(mode: DisplayMode, state: &mut ConsoleState)
    ensures
        *final(state) == (if mode == DisplayMode::Gpu {
            blinked(*old(state))
        } else {
            *old(state)
        }),
{
    if mode == DisplayMode::Gpu {
        update_cursor(state);
    }
}

} // verus!
