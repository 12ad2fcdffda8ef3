//! The user side of the syscall interface: descriptors, zero-terminated
//! strings and line editing.

use vstd::prelude::*;
use vstd::slice::slice_subrange;
use vstd::string::StringSliceAdditionalSpecFns;
use crate::uapi::SysErr;

verus! {

/// A file descriptor.
#[derive(Copy, Clone, Debug, Eq, PartialEq, Structural)]
pub struct Fd(pub i32);

impl Fd {
    /// Standard input.
    pub fn stdin() -> (r: Fd)
        ensures
            r == Fd(0),
    {
        Fd(0)
    }

    /// Standard output.
    pub fn stdout() -> (r: Fd)
        ensures
            r == Fd(1),
    {
        Fd(1)
    }

    /// Standard error.
    pub fn stderr() -> (r: Fd)
        ensures
            r == Fd(2),
    {
        Fd(2)
    }
}

/// What `get_fb_info` reports.
#[derive(Copy, Clone, Debug, Eq, PartialEq, Structural)]
pub struct FbInfo {
    pub width: usize,
    pub height: usize,
    pub stride: usize,
    pub addr: usize,
}

/// Something that takes bytes; `write` says how many it took.
pub trait IoWrite {
    /// What the writer vouches for when `write` on `buf` answers `r`; by default nothing.
    open spec fn wrote(&self, buf: Seq<u8>, r: Result<usize, SysErr>) -> bool { true }

    fn write(&self, buf: &[u8]) -> (r: Result<usize, SysErr>)
        ensures
            self.wrote(buf@, r),
    ;
}

/// Writes all of `buf`, in as many pieces as the writer takes it. Fails
/// where the writer fails, takes nothing, or claims more than it was given.
/// Nothing is written for no bytes.
pub fn write_all<W: IoWrite>(w: &W, buf: &[u8]) -> (r: Result<(), SysErr>)
    ensures
        written_from(w, buf@, 0, r),
        buf@.len() == 0 ==> r is Ok,
{
    let n = buf.len();
    let mut pos: usize = 0;
    while pos < n
        invariant
            pos <= n,
            n == buf@.len(),
            forall|out: Result<(), SysErr>| #[trigger]
                written_from(w, buf@, pos as int, out) ==> written_from(w, buf@, 0, out),
        decreases n - pos,
    {
        let rest = slice_subrange(buf, pos, n);
        let res = w.write(rest);
        proof {
            assert(rest@ =~= buf@.skip(pos as int));
            assert(w.wrote(buf@.skip(pos as int), res));
        }
        match write_progress(pos, n, res) {
            Progress::Failed(e) => {
                assert(written_from(w, buf@, pos as int, Err::<(), SysErr>(e)));
                return Err(e);
            },
            Progress::Done => {
                assert(written_from(w, buf@, pos as int, Ok::<(), SysErr>(())));
                return Ok(());
            },
            Progress::More(next) => {
                assert forall|out: Result<(), SysErr>| #[trigger]
                    written_from(w, buf@, next as int, out) implies written_from(w, buf@, 0, out) by {
                    assert(written_from(w, buf@, pos as int, out));
                }
                pos = next;
            },
        }
    }
    assert(written_from(w, buf@, pos as int, Ok::<(), SysErr>(())));
    Ok(())
}

/// How a write of the rest of a buffer leaves the writing of all of it.
#[derive(Copy, Clone, Debug, Eq, PartialEq, Structural)]
pub enum Progress {
    /// Nothing is left to write.
    Done,
    /// Writing goes on at this position.
    More(usize),
    /// Writing has failed.
    Failed(SysErr),
}

/// What follows when `len - pos` bytes were handed to a writer and `res`
/// came back: its failure is the failure of the whole; a writer that took
/// nothing, or claims more than it was given, has failed; else the bytes it
/// took are done with, and writing goes on behind them or is complete.
pub open spec fn progress(pos: int, len: int, res: Result<usize, SysErr>) -> Progress {
    if pos >= len {
        Progress::Done
    } else {
        match res {
            Err(e) => Progress::Failed(e),
            Ok(k) => if k == 0 || k > len - pos {
                Progress::Failed(SysErr::Fail)
            } else if pos + k == len {
                Progress::Done
            } else {
                Progress::More((pos + k) as usize)
            },
        }
    }
}

/// What follows a write of the bytes from `pos` on of a buffer of `len`
/// bytes, for each result that the writer can give.
pub fn write_progress(pos: usize, len: usize, res: Result<usize, SysErr>) -> (p: Progress)
    ensures
        p == progress(pos as int, len as int, res),
        p matches Progress::More(next) ==> pos < next < len,
{
    if pos >= len {
        return Progress::Done;
    }
    match res {
        Err(e) => Progress::Failed(e),
        Ok(k) => if k == 0 || k > len - pos {
            Progress::Failed(SysErr::Fail)
        } else if k == len - pos {
            Progress::Done
        } else {
            Progress::More(pos + k)
        },
    }
}

/// Whether `out` is a way in which writing the bytes of `buf` from `pos` on
/// can end: the writer is handed what is left, again and again, each time
/// behind the bytes it took, until nothing is left or a write fails. Each
/// answer counted is one that the writer vouches for.
pub open spec fn written_from<W: IoWrite>(w: &W, buf: Seq<u8>, pos: int, out: Result<(), SysErr>) -> bool
    decreases buf.len() - pos,
{
    if pos < 0 || pos >= buf.len() {
        out is Ok
    } else {
        exists|res: Result<usize, SysErr>|
            #[trigger] w.wrote(buf.skip(pos), res) && match progress(pos, buf.len() as int, res) {
                Progress::Done => out is Ok,
                Progress::Failed(e) => out == Err::<(), SysErr>(e),
                Progress::More(next) => pos < next < buf.len() && written_from(w, buf, next as int, out),
            }
    }
}

/// Something that gives bytes, appended to `buf`, at most `max` of them;
/// `read` says how many it gave.
pub trait IoRead {
    fn read(&self, buf: &mut Vec<u8>, max: usize) -> Result<usize, SysErr>;
}

/// A string of at most `N - 1` bytes, kept with a zero byte behind it.
pub struct CStrBuf<const N: usize> {
    buf: [u8; N],
    len: usize,
}

impl<const N: usize> View for CStrBuf<N> {
    type V = Seq<u8>;

    /// The bytes before the closing zero byte.
    closed spec fn view(&self) -> Seq<u8> {
        self.buf@.subrange(0, self.len as int)
    }
}

/// Whether a zero byte occurs among bytes.
pub open spec fn holds_nul(s: Seq<u8>) -> bool {
    exists|i: int| 0 <= i < s.len() && #[trigger] s[i] == 0
}

/// The smaller of a length and a buffer's room.
pub open spec fn fitted(len: int, n: int) -> int {
    if len <= n - 1 {
        len
    } else {
        n - 1
    }
}

impl<const N: usize> CStrBuf<N> {
    /// Whether the string ends inside the buffer, with a zero byte behind it.
    pub closed spec fn wf(&self) -> bool {
        self.len < N && self.buf@[self.len as int] == 0
    }

    /// The string's bytes with the closing zero byte.
    pub closed spec fn with_nul(&self) -> Seq<u8> {
        self.buf@.subrange(0, self.len + 1)
    }

    /// A text as a zero-terminated string, cut to what the buffer holds.
    /// Fails for a text that holds a zero byte.
    pub fn from_str(s: &str) -> (r: Result<Self, ()>)
        requires
            N > 0,
        ensures
            r is Err <==> holds_nul(s.spec_bytes()),
            r is Ok ==> r.unwrap().wf() && r.unwrap()@ == s.spec_bytes().subrange(
                0,
                fitted(s.spec_bytes().len() as int, N as int),
            ) && r.unwrap().with_nul() == r.unwrap()@.push(0),
    {
        let bytes = s.as_bytes();
        let n = bytes.len();
        let mut i: usize = 0;
        while i < n
            invariant
                i <= n,
                n == bytes@.len(),
                bytes@ == s.spec_bytes(),
                forall|j: int| 0 <= j < i ==> bytes@[j] != 0,
            decreases n - i,
        {
            if bytes[i] == 0 {
                assert(bytes@[i as int] == 0);
                return Err(());
            }
            i += 1;
        }
        let copy = if n <= N - 1 {
            n
        } else {
            N - 1
        };
        let mut buf: [u8; N] = [0u8; N];
        let mut k: usize = 0;
        while k < copy
            invariant
                k <= copy,
                copy < N,
                copy <= n,
                n == bytes@.len(),
                forall|j: int| 0 <= j < k ==> buf@[j] == bytes@[j],
                forall|j: int| k <= j < N ==> buf@[j] == 0,
            decreases copy - k,
        {
            buf[k] = bytes[k];
            k += 1;
        }
        let out = CStrBuf { buf, len: copy };
        proof {
            assert(out@ =~= s.spec_bytes().subrange(0, copy as int));
            assert(out.with_nul() =~= out@.push(0));
        }
        Ok(out)
    }

    /// The string's bytes with the closing zero byte.
    pub fn as_bytes_with_nul(&self) -> (r: &[u8])
        requires
            self.wf(),
        ensures
            r@ == self.with_nul(),
            r@ == self@.push(0),
    {
        let all = vstd::array::array_as_slice(&self.buf);
        let r = slice_subrange(all, 0, self.len + 1);
        proof {
            assert(self.with_nul() =~= self@.push(0));
        }
        r
    }
}

/// What a step of line editing leaves: the line so far, whether it is
/// complete, and what to echo.
pub struct LineState {
    pub line: Seq<u8>,
    pub done: bool,
    pub echo: Seq<u8>,
}

/// The line after one more byte of input, with room for `cap` bytes: a line
/// feed or carriage return completes it, a backspace or delete takes the
/// last byte away, and any other byte is appended while there is room. The
/// echo is the end of the line, the erasing of a character, or the byte.
pub open spec fn line_step(line: Seq<u8>, cap: int, b: u8) -> LineState {
    if b == 0x0a || b == 0x0d {
        LineState { line, done: true, echo: seq![0x0du8, 0x0au8] }
    } else if b == 0x08 || b == 0x7f {
        if line.len() > 0 {
            LineState { line: line.drop_last(), done: false, echo: seq![0x08u8, 0x20u8, 0x08u8] }
        } else {
            LineState { line, done: false, echo: Seq::empty() }
        }
    } else if line.len() < cap {
        LineState { line: line.push(b), done: false, echo: seq![b] }
    } else {
        LineState { line, done: false, echo: Seq::empty() }
    }
}

/// What reading a line from input gives.
pub struct LineView {
    pub line: Seq<u8>,
    /// Bytes of the input that were read.
    pub used: int,
    /// Whether the line is complete.
    pub done: bool,
    pub echo: Seq<u8>,
}

/// Reading a line from the input from position `i` on, with `line` read so
/// far: the input is read up to the byte that completes the line, or to its
/// end.
pub open spec fn line_from(line: Seq<u8>, cap: int, input: Seq<u8>, i: int) -> LineView
    decreases input.len() - i,
{
    if i < 0 || i >= input.len() {
        LineView { line, used: i, done: false, echo: Seq::empty() }
    } else {
        let step = line_step(line, cap, input[i]);
        if step.done {
            LineView { line: step.line, used: i + 1, done: true, echo: step.echo }
        } else {
            let rest = line_from(step.line, cap, input, i + 1);
            LineView { echo: step.echo + rest.echo, ..rest }
        }
    }
}

/// The outcome of `read_line`.
pub struct Line {
    /// The line, without its end.
    pub line: Vec<u8>,
    /// Bytes of the input that were read.
    pub used: usize,
    /// Whether the line is complete.
    pub done: bool,
    /// What to echo; nothing where echo is off.
    pub echo: Vec<u8>,
}

/// Reads a line of at most `cap` bytes from the input that has arrived. A
/// line of no room is complete at once.
pub fn read_line(input: &[u8], cap: usize, echo: bool) -> (r: Line)
    ensures
        cap == 0 ==> r.line@.len() == 0 && r.used == 0 && r.done && r.echo@.len() == 0,
        cap > 0 ==> ({
            let v = line_from(Seq::empty(), cap as int, input@, 0);
            &&& r.line@ == v.line
            &&& r.used == v.used
            &&& r.done == v.done
            &&& r.echo@ == (if echo {
                v.echo
            } else {
                Seq::empty()
            })
        }),
{
    let mut line: Vec<u8> = Vec::new();
    let mut out: Vec<u8> = Vec::new();
    if cap == 0 {
        return Line { line, used: 0, done: true, echo: out };
    }
    let n = input.len();
    let ghost goal = line_from(Seq::empty(), cap as int, input@, 0);
    let ghost mut shown: Seq<u8> = Seq::empty();
    let mut i: usize = 0;
    proof {
        assert(shown + goal.echo =~= goal.echo);
    }
    while i < n
        invariant
            i <= n,
            cap > 0,
            n == input@.len(),
            goal == line_from(Seq::empty(), cap as int, input@, 0),
            goal.line == line_from(line@, cap as int, input@, i as int).line,
            goal.used == line_from(line@, cap as int, input@, i as int).used,
            goal.done == line_from(line@, cap as int, input@, i as int).done,
            goal.echo == shown + line_from(line@, cap as int, input@, i as int).echo,
            out@ == (if echo {
                shown
            } else {
                Seq::empty()
            }),
        decreases n - i,
    {
        let b = input[i];
        let ghost before = line@;
        let ghost step = line_step(before, cap as int, b);
        let ghost rest_echo = line_from(step.line, cap as int, input@, i + 1).echo;
        if b == 0x0a || b == 0x0d {
            if echo {
                out.push(0x0d);
                out.push(0x0a);
            }
            proof {
                shown = shown + step.echo;
                assert(out@ =~= (if echo {
                    shown
                } else {
                    Seq::empty()
                }));
            }
            return Line { line, used: i + 1, done: true, echo: out };
        } else if b == 0x08 || b == 0x7f {
            if line.len() > 0 {
                line.pop();
                if echo {
                    out.push(0x08);
                    out.push(0x20);
                    out.push(0x08);
                }
            }
        } else if line.len() < cap {
            line.push(b);
            if echo {
                out.push(b);
            }
        }
        proof {
            assert((shown + step.echo) + rest_echo =~= shown + (step.echo + rest_echo));
            shown = shown + step.echo;
            assert(line@ =~= step.line);
            assert(out@ =~= (if echo {
                shown
            } else {
                Seq::empty()
            }));
        }
        i += 1;
    }
    proof {
        assert(shown + Seq::<u8>::empty() =~= shown);
    }
    Line { line, used: i, done: false, echo: out }
}

/// Reads a line from the input that stdin has, with echo.
pub fn read_line_stdin(input: &[u8], cap: usize) -> (r: Line)
    ensures
        cap > 0 ==> r.line@ == line_from(Seq::empty(), cap as int, input@, 0).line && r.used == line_from(
            Seq::empty(),
            cap as int,
            input@,
            0,
        ).used && r.done == line_from(Seq::empty(), cap as int, input@, 0).done && r.echo@ == line_from(
            Seq::empty(),
            cap as int,
            input@,
            0,
        ).echo,
        cap == 0 ==> r.line@.len() == 0 && r.used == 0 && r.done && r.echo@.len() == 0,
{
    read_line(input, cap, true)
}

/// Reads a line from the input that stdin has, without echo.
pub fn read_line_stdin_silent(input: &[u8], cap: usize) -> (r: Line)
    ensures
        cap > 0 ==> r.line@ == line_from(Seq::empty(), cap as int, input@, 0).line && r.used == line_from(
            Seq::empty(),
            cap as int,
            input@,
            0,
        ).used && r.done == line_from(Seq::empty(), cap as int, input@, 0).done,
        cap == 0 ==> r.line@.len() == 0 && r.used == 0 && r.done,
        r.echo@.len() == 0,
{
    read_line(input, cap, false)
}

} // verus!
