//! Display selection and the framebuffer's description.

use vstd::prelude::*;
use vstd::string::StrSliceExecFns;
use crate::text::{is_whitespace, is_ws, lemma_word_end_bounds, str_eq, word_end};

verus! {

/// Where console output goes.
#[derive(Clone, Copy, PartialEq, Eq, Debug, Structural)]
pub enum DisplayMode {
    Ansi,
    Gpu,
}

/// A framebuffer: its size in pixels, the pixels per row of memory, and
/// where its memory lies.
#[derive(Clone, Copy, PartialEq, Eq, Debug, Structural)]
pub struct FramebufferInfo {
    pub width: usize,
    pub height: usize,
    pub stride: usize,
    pub phys_addr: usize,
    pub size: usize,
}

/// The display that the boot arguments select.
pub struct DisplayConfig {
    mode: DisplayMode,
}

impl View for DisplayConfig {
    type V = DisplayMode;

    closed spec fn view(&self) -> DisplayMode {
        self.mode
    }
}

impl DisplayConfig {
    /// The default: the serial console.
    pub fn new() -> (r: Self)
        ensures
            r@ == DisplayMode::Ansi,
    {
        DisplayConfig { mode: DisplayMode::Ansi }
    }
}

/// Whether a word of the boot arguments sets the display.
pub open spec fn sets_display(w: Seq<char>) -> bool {
    w.len() >= 8 && w.subrange(0, 8) == "display="@
}

/// The display after a word of the boot arguments: a word `display=gpu`
/// selects the framebuffer, any other `display=` word the serial console,
/// and every other word leaves the choice as it is.
pub open spec fn word_mode(mode: DisplayMode, w: Seq<char>) -> DisplayMode {
    if sets_display(w) {
        if w.subrange(8, w.len() as int) == "gpu"@ {
            DisplayMode::Gpu
        } else {
            DisplayMode::Ansi
        }
    } else {
        mode
    }
}

/// The display after the words of the boot arguments from position `i` on,
/// read in order.
pub open spec fn cmdline_from(mode: DisplayMode, line: Seq<char>, i: int) -> DisplayMode
    decreases line.len() - i,
{
    if i < 0 || i >= line.len() {
        mode
    } else if is_ws(line[i]) {
        cmdline_from(mode, line, i + 1)
    } else {
        let e = word_end(line, i + 1);
        let j = if i < e <= line.len() {
            e
        } else {
            i + 1
        };
        cmdline_from(word_mode(mode, line.subrange(i, j)), line, j)
    }
}

/// Reads the boot arguments, words separated by white space, and sets the
/// display that they select.
pub fn parse_cmdline(cfg: &mut DisplayConfig, s: &str)
    ensures
        final(cfg)@ == cmdline_from(old(cfg)@, s@, 0),
{
    let n = s.unicode_len();
    let mut i: usize = 0;
    while i < n
        invariant
            i <= n,
            n == s@.len(),
            cmdline_from(cfg@, s@, i as int) == cmdline_from(old(cfg)@, s@, 0),
        decreases n - i,
    {
        if is_whitespace(s.get_char(i)) {
            i += 1;
        } else {
            let mut j: usize = i + 1;
            while j < n && !is_whitespace(s.get_char(j))
                invariant
                    i < j <= n,
                    n == s@.len(),
                    word_end(s@, j as int) == word_end(s@, i + 1),
                decreases n - j,
            {
                j += 1;
            }
            proof {
                lemma_word_end_bounds(s@, i + 1);
            }
            let word = s.substring_char(i, j);
            let len = j - i;
            if len >= 8 && str_eq(word.substring_char(0, 8), "display=") {
                cfg.mode = if str_eq(word.substring_char(8, len), "gpu") {
                    DisplayMode::Gpu
                } else {
                    DisplayMode::Ansi
                };
            }
            i = j;
        }
    }
}

/// The display that is selected.
pub fn display_mode(cfg: &DisplayConfig) -> (r: DisplayMode)
    ensures
        r == cfg@,
{
    cfg.mode
}

/// Selects a display.
pub fn set_display_mode(cfg: &mut DisplayConfig, mode: DisplayMode)
    ensures
        final(cfg)@ == mode,
{
    cfg.mode = mode;
}

} // verus!
