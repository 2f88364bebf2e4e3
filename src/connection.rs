use vstd::prelude::*;
use crate::frame::Frame;
use crate::parse::{Decoded, Parsed, parse_frame, decode_at};

verus! {

/// Why a connection can no longer be read from.
#[derive(PartialEq, Eq, Structural, Debug, Clone, Copy)]
pub enum ConnectionError {
    /// The buffered bytes are no prefix of any encoding.
    Malformed,
    /// The peer closed the stream in the middle of a frame.
    ResetMidFrame,
}

/// The receive side of a connection: the bytes read from the socket that no
/// decoded frame has taken yet.
pub struct Connection {
    buff: Vec<u8>,
}

impl View for Connection {
    type V = Seq<u8>;

    closed spec fn view(&self) -> Seq<u8> {
        self.buff@
    }
}

impl Connection {
    /// A connection with nothing buffered.
    pub fn new() -> (r: Connection)
        ensures
            r@ == Seq::<u8>::empty(),
    {
        Connection { buff: Vec::with_capacity(4096) }
    }

    /// The bytes buffered so far.
    pub fn buffered(&self) -> (r: &[u8])
        ensures
            r@ == self@,
    {
        self.buff.as_slice()
    }

    /// Appends bytes that a read from the socket gave.
    pub fn extend(&mut self, bytes: &[u8])
        ensures
            final(self)@ == old(self)@ + bytes@,
    {
        let mut i: usize = 0;
        while i < bytes.len()
            invariant
                i <= bytes.len(),
                self.buff@ == old(self)@ + bytes@.subrange(0, i as int),
            decreases bytes.len() - i,
        {
            self.buff.push(bytes[i]);
            i = i + 1;
            assert(self.buff@ =~= old(self)@ + bytes@.subrange(0, i as int));
        }
        assert(bytes@.subrange(0, bytes.len() as int) =~= bytes@);
    }

    /// Takes one frame from the front of the buffer when all its bytes are
    /// there. A complete frame leaves the buffer without its bytes; an
    /// incomplete one leaves the buffer as it was, to be retried once more
    /// bytes came; malformed bytes are an error.
    pub fn parse_frame(&mut self) -> (r: Result<Option<Frame>, ConnectionError>)
        ensures
            match parse_frame(old(self)@) {
                Decoded::Complete(f, n) => r matches Ok(Some(g)) && g@ == f && final(self)@
                    == old(self)@.subrange(n, old(self)@.len() as int),
                Decoded::Incomplete => r matches Ok(None) && final(self)@ == old(self)@,
                Decoded::Malformed => r == Err::<Option<Frame>, ConnectionError>(
                    ConnectionError::Malformed,
                ) && final(self)@ == old(self)@,
            },
    {
        match decode_at(self.buff.as_slice(), 0) {
            Parsed::Complete(f, n) => {
                proof {
                    crate::parse::lemma_parse_end(old(self)@, 0);
                }
                let mut rest: Vec<u8> = Vec::with_capacity(4096);
                let mut j: usize = n;
                while j < self.buff.len()
                    invariant
                        n <= j <= self.buff.len(),
                        self.buff@ == old(self)@,
                        rest@ == old(self)@.subrange(n as int, j as int),
                    decreases self.buff.len() - j,
                {
                    rest.push(self.buff[j]);
                    j = j + 1;
                    assert(rest@ =~= old(self)@.subrange(n as int, j as int));
                }
                self.buff = rest;
                Ok(Some(f))
            },
            Parsed::Incomplete => Ok(None),
            Parsed::Malformed => Err(ConnectionError::Malformed),
        }
    }

    /// What a read of zero bytes means: the end of the stream where nothing
    /// is buffered, a reset in the middle of a frame where something is.
    pub fn end_of_stream(&self) -> (r: Result<Option<Frame>, ConnectionError>)
        ensures
            self@.len() == 0 ==> r matches Ok(None),
            self@.len() > 0 ==> r == Err::<Option<Frame>, ConnectionError>(
                ConnectionError::ResetMidFrame,
            ),
    {
        if self.buff.len() == 0 {
            Ok(None)
        } else {
            Err(ConnectionError::ResetMidFrame)
        }
    }
}

} // verus!
