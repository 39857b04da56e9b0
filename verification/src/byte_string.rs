//! The `CString` buffer type: an owned, variable-length sequence of
//! ASCII bytes with explicit length tracking (no terminating sentinel).

use vstd::prelude::*;

verus! {

broadcast use vstd::string::is_ascii_spec_bytes, vstd::utf8::is_ascii_chars_nat_bound;

/// An owned buffer of ASCII byte values.
pub struct CString {
    pub(crate) chars: Vec<u8>,
}

/// The bytes of an ASCII character sequence, one byte per character.
pub open spec fn bytes_of_chars(s: Seq<char>) -> Seq<u8> {
    Seq::new(s.len(), |i: int| s[i] as u8)
}

/// The characters spelled by a byte sequence, one character per byte.
pub open spec fn chars_of_bytes(b: Seq<u8>) -> Seq<char> {
    Seq::new(b.len(), |i: int| b[i] as char)
}

impl View for CString {
    type V = Seq<u8>;

    closed spec fn view(&self) -> Seq<u8> {
        self.chars@
    }
}

impl CString {
    /// Every byte is a valid ASCII code point.
    pub open spec fn wf(&self) -> bool {
        forall|i: int| 0 <= i < self@.len() ==> self@[i] < 128
    }

    /// Wraps an owned byte sequence; the bytes must all be ASCII.
    pub fn from_utf8(v: Vec<u8>) -> (r: Self)
        requires
            forall|i: int| 0 <= i < v@.len() ==> v@[i] < 128,
        ensures
            r@ == v@,
            r.wf(),
    {
        Self { chars: v }
    }

    /// The underlying byte buffer.
    pub fn as_bytes(&self) -> (r: &Vec<u8>)
        ensures
            r@ == self@,
    {
        &self.chars
    }

    /// The number of bytes held.
    pub fn len(&self) -> (n: usize)
        ensures
            n == self@.len(),
    {
        self.chars.len()
    }

    /// Consumes the buffer into a cursor over its bytes.
    pub fn into_cursor(self) -> (r: crate::cursor::Cursor)
        ensures
            r@ == self@,
    {
        crate::cursor::Cursor::new(self.chars)
    }

    /// An independent copy with no shared storage.
    pub fn clone(&self) -> (r: Self)
        ensures
            r@ == self@,
    {
        Self { chars: self.chars.clone() }
    }

    /// Builds a buffer from a text value; every character must be in
    /// the ASCII range.
    pub fn from(s: &str) -> (r: Self)
        requires
            s.is_ascii(),
        ensures
            r@ == bytes_of_chars(s@),
            r.wf(),
    {
        let bytes = s.as_bytes();
        proof {
            assert(bytes@ =~= bytes_of_chars(s@));
        }
        Self { chars: vstd::slice::slice_to_vec(bytes) }
    }

    /// The byte at the given position, when in bounds.
    pub fn get(&self, i: usize) -> (r: Option<u8>)
        ensures
            r == (if i < self@.len() {
                Some(self@[i as int])
            } else {
                None::<u8>
            }),
    {
        if i < self.chars.len() {
            Some(self.chars[i])
        } else {
            None
        }
    }

    /// An owned text copy of the full buffer, one character per byte.
    pub fn to_string(&self) -> (r: String)
        requires
            self.wf(),
        ensures
            r@ == chars_of_bytes(self@),
    {
        let v = self.chars.clone();
        proof {
            assert(v@ =~= self@);
        }
        ascii_to_string(v)
    }

    /// The bytes in the given position range rendered as text, or
    /// nothing when the range is invalid or out of bounds.
    pub fn substring(&self, start: usize, end: usize) -> (r: Option<String>)
        requires
            self.wf(),
        ensures
            r is Some <==> start <= end <= self@.len(),
            r matches Some(t) ==> t@ == chars_of_bytes(self@.subrange(start as int, end as int)),
    {
        if start <= end && end <= self.chars.len() {
            let mut v: Vec<u8> = Vec::new();
            let mut i = start;
            while i < end
                invariant
                    start <= i <= end,
                    end <= self@.len(),
                    self.wf(),
                    v@ == self@.subrange(start as int, i as int),
                decreases end - i,
            {
                v.push(self.chars[i]);
                proof {
                    assert(v@ =~= self@.subrange(start as int, i + 1));
                }
                i = i + 1;
            }
            Some(ascii_to_string(v))
        } else {
            None
        }
    }

    /// Appends the bytes of a text value; every character must be in
    /// the ASCII range.
    pub fn push_str(&mut self, s: &str)
        requires
            s.is_ascii(),
        ensures
            final(self)@ == old(self)@ + bytes_of_chars(s@),
            old(self).wf() ==> final(self).wf(),
    {
        let bytes = s.as_bytes();
        proof {
            assert(bytes@ =~= bytes_of_chars(s@));
        }
        let mut v = vstd::slice::slice_to_vec(bytes);
        self.chars.append(&mut v);
    }

    /// Appends another buffer's bytes, consuming it.
    pub fn append(&mut self, other: Self)
        ensures
            final(self)@ == old(self)@ + other@,
            old(self).wf() && other.wf() ==> final(self).wf(),
    {
        let mut v = other.chars;
        self.chars.append(&mut v);
        proof {
            if old(self).wf() && other.wf() {
                assert forall|i: int| 0 <= i < self@.len() implies self@[i] < 128 by {
                    if i < old(self)@.len() {
                        assert(self@[i] == old(self)@[i]);
                    } else {
                        assert(self@[i] == other@[i - old(self)@.len()]);
                    }
                }
            }
        }
    }
}

/// Relies on `String::from_utf8`: a vector of ASCII bytes is valid
/// UTF-8 and decodes to the characters with the same code points.
#[verifier::external_body]
fn ascii_to_string(v: Vec<u8>) -> (r: String)
    requires
        forall|i: int| 0 <= i < v@.len() ==> v@[i] < 128,
    ensures
        r@ == chars_of_bytes(v@),
{
    match String::from_utf8(v) {
        Ok(s) => s,
        Err(_) => String::new(),
    }
}

/// Round trip: building a buffer from ASCII text and rendering it
/// back as text yields the original text exactly.
pub proof fn lemma_text_round_trip(t: Seq<char>)
    requires
        vstd::utf8::is_ascii_chars(t),
    ensures
        chars_of_bytes(bytes_of_chars(t)) == t,
{
    assert(chars_of_bytes(bytes_of_chars(t)) =~= t);
}

} // verus!
