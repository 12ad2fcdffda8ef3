//! Keyboard input: the ring buffer that stdin reads from, and the decoding
//! of key events into bytes.

use vstd::prelude::*;

verus! {

/// Slots of the input ring; it holds one byte less.
pub const INPUT_BUFFER_SIZE: usize = 256;

/// Event type of a key event.
pub const EV_KEY: u16 = 0x01;

/// An input event as the device reports it.
#[derive(Copy, Clone, Debug)]
pub struct VirtioInputEvent {
    pub event_type: u16,
    pub code: u16,
    pub value: u32,
}

/// A ring of input bytes, first in first out.
pub struct InputBuffer {
    buffer: Vec<u8>,
    read_pos: usize,
    write_pos: usize,
}

impl View for InputBuffer {
    type V = Seq<u8>;

    /// The bytes waiting, oldest first.
    closed spec fn view(&self) -> Seq<u8> {
        Seq::new(
            ((self.write_pos + INPUT_BUFFER_SIZE - self.read_pos) % (INPUT_BUFFER_SIZE as int)) as nat,
            |i: int| self.buffer@[(self.read_pos + i) % (INPUT_BUFFER_SIZE as int)],
        )
    }
}

impl InputBuffer {
    /// Whether the ring has its 256 slots and both positions lie in it.
    pub closed spec fn wf(&self) -> bool {
        &&& self.buffer@.len() == INPUT_BUFFER_SIZE
        &&& self.read_pos < INPUT_BUFFER_SIZE
        &&& self.write_pos < INPUT_BUFFER_SIZE
    }

    /// A sound ring never holds more than 255 bytes.
    pub proof fn lemma_bounded(&self)
        requires
            self.wf(),
        ensures
            self@.len() < INPUT_BUFFER_SIZE,
    {
    }

    /// An empty ring.
    pub fn new() -> (r: Self)
        ensures
            r.wf(),
            r@ == Seq::<u8>::empty(),
    {
        let mut buffer: Vec<u8> = Vec::new();
        let mut i: usize = 0;
        while i < INPUT_BUFFER_SIZE
            invariant
                i <= INPUT_BUFFER_SIZE,
                buffer@.len() == i,
            decreases INPUT_BUFFER_SIZE - i,
        {
            buffer.push(0);
            i += 1;
        }
        let r = InputBuffer { buffer, read_pos: 0, write_pos: 0 };
        assert(r@ =~= Seq::<u8>::empty());
        r
    }

    /// Appends a byte. A ring that holds 255 bytes is full: it stays as it
    /// is and `false` comes back.
    pub fn push(&mut self, byte: u8) -> (ok: bool)
        requires
            old(self).wf(),
        ensures
            final(self).wf(),
            ok == (old(self)@.len() < INPUT_BUFFER_SIZE - 1),
            ok ==> final(self)@ == old(self)@.push(byte),
            !ok ==> final(self)@ == old(self)@,
    {
        let next_write = (self.write_pos + 1) % INPUT_BUFFER_SIZE;
        if next_write == self.read_pos {
            return false;
        }
        let ghost before = *self;
        self.buffer.set(self.write_pos, byte);
        self.write_pos = next_write;
        proof {
            let n = before@.len() as int;
            assert(self@.len() == n + 1);
            assert forall|i: int| 0 <= i < n + 1 implies self@[i] == before@.push(byte)[i] by {
                if i < n {
                    assert((before.read_pos + i) % 256 != before.write_pos as int);
                } else {
                    assert((before.read_pos + i) % 256 == before.write_pos as int);
                }
            }
            assert(self@ =~= before@.push(byte));
        }
        true
    }

    /// Takes the oldest byte, if there is one.
    pub fn pop(&mut self) -> (r: Option<u8>)
        requires
            old(self).wf(),
        ensures
            final(self).wf(),
            old(self)@.len() == 0 ==> r is None && final(self)@ == old(self)@,
            old(self)@.len() > 0 ==> r == Some(old(self)@[0]) && final(self)@ == old(self)@.drop_first(),
    {
        if self.read_pos == self.write_pos {
            return None;
        }
        let ghost before = *self;
        let byte = self.buffer[self.read_pos];
        self.read_pos = (self.read_pos + 1) % INPUT_BUFFER_SIZE;
        proof {
            let n = before@.len() as int;
            assert(n > 0);
            assert(before@[0] == byte);
            assert(self@.len() == n - 1);
            assert forall|i: int| 0 <= i < n - 1 implies self@[i] == before@.drop_first()[i] by {
                assert((self.read_pos + i) % 256 == (before.read_pos + (i + 1)) % 256);
            }
            assert(self@ =~= before@.drop_first());
        }
        Some(byte)
    }

    /// Whether no byte is waiting.
    pub fn is_empty(&self) -> (r: bool)
        requires
            self.wf(),
        ensures
            r == (self@.len() == 0),
    {
        self.read_pos == self.write_pos
    }

    /// Number of bytes waiting.
    pub fn len(&self) -> (r: usize)
        requires
            self.wf(),
        ensures
            r == self@.len(),
    {
        if self.write_pos >= self.read_pos {
            self.write_pos - self.read_pos
        } else {
            INPUT_BUFFER_SIZE - self.read_pos + self.write_pos
        }
    }
}

/// Appends a byte of input; input that finds the ring full is dropped.
pub fn push_input(buf: &mut InputBuffer, byte: u8)
    requires
        old(buf).wf(),
    ensures
        final(buf).wf(),
        final(buf)@ == (if old(buf)@.len() < INPUT_BUFFER_SIZE - 1 {
            old(buf)@.push(byte)
        } else {
            old(buf)@
        }),
{
    let _ = buf.push(byte);
}

/// Takes the oldest byte of input.
pub fn pop_input(buf: &mut InputBuffer) -> (r: Option<u8>)
    requires
        old(buf).wf(),
    ensures
        final(buf).wf(),
        old(buf)@.len() == 0 ==> r is None && final(buf)@ == old(buf)@,
        old(buf)@.len() > 0 ==> r == Some(old(buf)@[0]) && final(buf)@ == old(buf)@.drop_first(),
{
    buf.pop()
}

/// Whether input is waiting.
pub fn has_input(buf: &InputBuffer) -> (r: bool)
    requires
        buf.wf(),
    ensures
        r == (buf@.len() > 0),
{
    !buf.is_empty()
}

/// The byte at position `i` of a row of keys.
pub open spec fn row_key(row: Seq<char>, i: int) -> Option<u8> {
    if 0 <= i < row.len() {
        Some(row[i] as u8)
    } else {
        None
    }
}

/// The byte that a key of the US layout types, by its Linux key code: the
/// four rows of the main block, and escape, backspace, tab, enter, backslash
/// and space.
pub open spec fn key_byte(code: u16) -> Option<u8> {
    if 2 <= code <= 13 {
        row_key("1234567890-="@, code - 2)
    } else if 16 <= code <= 27 {
        row_key("qwertyuiop[]"@, code - 16)
    } else if 30 <= code <= 41 {
        row_key("asdfghjkl;'`"@, code - 30)
    } else if 44 <= code <= 53 {
        row_key("zxcvbnm,./"@, code - 44)
    } else if code == 1 {
        Some(0x1bu8)
    } else if code == 14 {
        Some(0x08u8)
    } else if code == 15 {
        Some(0x09u8)
    } else if code == 28 {
        Some(0x0au8)
    } else if code == 43 {
        Some(0x5cu8)
    } else if code == 57 {
        Some(0x20u8)
    } else {
        None
    }
}

/// The byte that a key types, by its Linux key code.
pub fn keycode_to_ascii(code: u16) -> (r: Option<u8>)
    ensures
        r == key_byte(code),
{
    proof {
        reveal_strlit("1234567890-=");
        reveal_strlit("qwertyuiop[]");
        reveal_strlit("asdfghjkl;'`");
        reveal_strlit("zxcvbnm,./");
    }
    match code {
        2 => Some(0x31),
        3 => Some(0x32),
        4 => Some(0x33),
        5 => Some(0x34),
        6 => Some(0x35),
        7 => Some(0x36),
        8 => Some(0x37),
        9 => Some(0x38),
        10 => Some(0x39),
        11 => Some(0x30),
        12 => Some(0x2d),
        13 => Some(0x3d),
        14 => Some(0x08),
        15 => Some(0x09),
        16 => Some(0x71),
        17 => Some(0x77),
        18 => Some(0x65),
        19 => Some(0x72),
        20 => Some(0x74),
        21 => Some(0x79),
        22 => Some(0x75),
        23 => Some(0x69),
        24 => Some(0x6f),
        25 => Some(0x70),
        26 => Some(0x5b),
        27 => Some(0x5d),
        28 => Some(0x0a),
        30 => Some(0x61),
        31 => Some(0x73),
        32 => Some(0x64),
        33 => Some(0x66),
        34 => Some(0x67),
        35 => Some(0x68),
        36 => Some(0x6a),
        37 => Some(0x6b),
        38 => Some(0x6c),
        39 => Some(0x3b),
        40 => Some(0x27),
        41 => Some(0x60),
        43 => Some(0x5c),
        44 => Some(0x7a),
        45 => Some(0x78),
        46 => Some(0x63),
        47 => Some(0x76),
        48 => Some(0x62),
        49 => Some(0x6e),
        50 => Some(0x6d),
        51 => Some(0x2c),
        52 => Some(0x2e),
        53 => Some(0x2f),
        57 => Some(0x20),
        1 => Some(0x1b),
        _ => None,
    }
}

/// What an event adds to the input: the byte of the key, for the press of a
/// key that types one.
pub open spec fn event_byte(event: VirtioInputEvent) -> Option<u8> {
    if event.event_type != EV_KEY || event.value != 1 {
        None
    } else {
        key_byte(event.code)
    }
}

/// Feeds an event to the input: the press of a key that types a byte
/// appends that byte; any other event changes nothing.
pub fn process_event(buf: &mut InputBuffer, event: &VirtioInputEvent)
    requires
        old(buf).wf(),
    ensures
        final(buf).wf(),
        final(buf)@ == (match event_byte(*event) {
            Some(b) => if old(buf)@.len() < INPUT_BUFFER_SIZE - 1 {
                old(buf)@.push(b)
            } else {
                old(buf)@
            },
            None => old(buf)@,
        }),
{
    if event.event_type != EV_KEY || event.value != 1 {
        return ;
    }
    match keycode_to_ascii(event.code) {
        Some(ascii) => push_input(buf, ascii),
        None => {},
    }
}

} // verus!
