//! The serial console: what goes out on the wire for what is written, and
//! the bytes that came in.

use vstd::prelude::*;
use vstd::string::StringSliceAdditionalSpecFns;

verus! {

/// What goes out on the wire for bytes that are written: each line feed
/// preceded by a carriage return.
pub open spec fn crlf(bytes: Seq<u8>) -> Seq<u8>
    decreases bytes.len(),
{
    if bytes.len() == 0 {
        Seq::empty()
    } else if bytes.last() == 0x0a {
        crlf(bytes.drop_last()) + seq![0x0du8, 0x0au8]
    } else {
        crlf(bytes.drop_last()).push(bytes.last())
    }
}

/// Appends to `console` what goes out for `bytes`.
pub fn emit(console: &mut Vec<u8>, bytes: &[u8])
    ensures
        final(console)@ == old(console)@ + crlf(bytes@),
{
    let n = bytes.len();
    let mut i: usize = 0;
    proof {
        assert(console@ =~= old(console)@ + crlf(bytes@.take(0)));
    }
    while i < n
        invariant
            i <= n,
            n == bytes@.len(),
            console@ == old(console)@ + crlf(bytes@.take(i as int)),
        decreases n - i,
    {
        let b = bytes[i];
        proof {
            assert(bytes@.take(i + 1).drop_last() =~= bytes@.take(i as int));
        }
        if b == 0x0a {
            console.push(0x0d);
            console.push(0x0a);
            assert(console@ =~= old(console)@ + crlf(bytes@.take(i + 1)));
        } else {
            console.push(b);
            assert(console@ =~= old(console)@ + crlf(bytes@.take(i + 1)));
        }
        i += 1;
    }
    assert(bytes@.take(n as int) =~= bytes@);
}

/// The serial port: the bytes it has yet to send and those it has received.
pub struct Uart {
    /// Bytes written and not yet sent, oldest first.
    pub tx: Vec<u8>,
    /// Bytes received and not yet read, oldest first.
    pub rx: Vec<u8>,
}

impl Uart {
    /// A port with nothing to send and nothing received.
    pub fn new() -> (r: Self)
        ensures
            r.tx@.len() == 0,
            r.rx@.len() == 0,
    {
        Uart { tx: Vec::new(), rx: Vec::new() }
    }

    /// Queues one byte for sending, as it is.
    pub fn write_byte(&mut self, byte: u8)
        ensures
            final(self).tx@ == old(self).tx@.push(byte),
            final(self).rx@ == old(self).rx@,
    {
        self.tx.push(byte);
    }

    /// Queues a text for sending, each line feed preceded by a carriage
    /// return.
    pub fn write_str(&mut self, s: &str)
        ensures
            final(self).tx@ == old(self).tx@ + crlf(s.spec_bytes()),
            final(self).rx@ == old(self).rx@,
    {
        emit(&mut self.tx, s.as_bytes());
    }

    /// Whether a received byte is waiting.
    pub fn can_read(&self) -> (r: bool)
        ensures
            r == (self.rx@.len() > 0),
    {
        self.rx.len() > 0
    }

    /// Takes the oldest received byte, if one is waiting.
    pub fn try_read_byte(&mut self) -> (r: Option<u8>)
        ensures
            final(self).tx@ == old(self).tx@,
            old(self).rx@.len() == 0 ==> r is None && final(self).rx@ == old(self).rx@,
            old(self).rx@.len() > 0 ==> r == Some(old(self).rx@[0]) && final(self).rx@ == old(self).rx@.drop_first(),
    {
        if self.rx.len() > 0 {
            let b = self.rx.remove(0);
            assert(self.rx@ =~= old(self).rx@.drop_first());
            Some(b)
        } else {
            None
        }
    }

    /// Takes the oldest received byte; one must be waiting.
    pub fn read_byte(&mut self) -> (r: u8)
        requires
            old(self).rx@.len() > 0,
        ensures
            final(self).tx@ == old(self).tx@,
            r == old(self).rx@[0],
            final(self).rx@ == old(self).rx@.drop_first(),
    {
        let b = self.rx.remove(0);
        assert(self.rx@ =~= old(self).rx@.drop_first());
        b
    }
}

} // verus!
