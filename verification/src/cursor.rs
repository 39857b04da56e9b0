//! A consuming position-tracker over a byte sequence, supporting
//! "peek the next byte without advancing" and "advance past one byte".
//! Its view is the sequence of bytes not yet consumed.

use vstd::prelude::*;

verus! {

/// A cursor over an owned byte sequence. Advancing is destructive:
/// callers needing the original buffer must clone it first.
pub struct Cursor {
    bytes: Vec<u8>,
    pos: usize,
}

impl View for Cursor {
    type V = Seq<u8>;

    closed spec fn view(&self) -> Seq<u8> {
        if self.pos <= self.bytes@.len() {
            self.bytes@.skip(self.pos as int)
        } else {
            Seq::empty()
        }
    }
}

impl Cursor {
    /// A cursor positioned at the start of the given bytes.
    pub fn new(bytes: Vec<u8>) -> (r: Self)
        ensures
            r@ == bytes@,
    {
        let r = Cursor { bytes, pos: 0 };
        proof {
            assert(r.bytes@.skip(0) =~= r.bytes@);
        }
        r
    }

    /// The next byte, if any, without advancing.
    pub fn peek(&self) -> (r: Option<u8>)
        ensures
            r == (if self@.len() > 0 {
                Some(self@[0])
            } else {
                None::<u8>
            }),
    {
        if self.pos < self.bytes.len() {
            Some(self.bytes[self.pos])
        } else {
            None
        }
    }

    /// The byte after the next one, if any, without advancing.
    pub fn peek_second(&self) -> (r: Option<u8>)
        ensures
            r == (if self@.len() > 1 {
                Some(self@[1])
            } else {
                None::<u8>
            }),
    {
        if self.pos < self.bytes.len() && self.pos + 1 < self.bytes.len() {
            Some(self.bytes[self.pos + 1])
        } else {
            None
        }
    }

    /// Consumes and returns the next byte, if any.
    pub fn next(&mut self) -> (r: Option<u8>)
        ensures
            old(self)@.len() > 0 ==> r == Some(old(self)@[0]) && final(self)@ == old(
                self,
            )@.drop_first(),
            old(self)@.len() == 0 ==> r == None::<u8> && final(self)@ == old(self)@,
    {
        if self.pos < self.bytes.len() {
            let b = self.bytes[self.pos];
            self.pos = self.pos + 1;
            proof {
                assert(old(self).bytes@.skip(old(self).pos as int).drop_first() =~= self.bytes@.skip(
                    self.pos as int,
                ));
            }
            Some(b)
        } else {
            None
        }
    }
}

} // verus!
