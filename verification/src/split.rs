//! A `strtok`-style tokenizer: splits a buffer into pieces at every
//! occurrence of a delimiter byte. Unlike C's `strtok`, consecutive
//! and boundary delimiters are not collapsed: an input holding N
//! delimiters always yields exactly N + 1 pieces, empty ones included.

use vstd::prelude::*;

use crate::byte_string::CString;

verus! {

/// The views of a sequence of buffers, in order.
pub open spec fn piece_views(ts: Seq<CString>) -> Seq<Seq<u8>> {
    Seq::new(ts.len(), |i: int| ts[i]@)
}

/// The pieces obtained by cutting `s` at every occurrence of `d`:
/// each delimiter ends the piece before it (and is dropped), and the
/// final piece is always present, even when empty.
pub open spec fn split_bytes(s: Seq<u8>, d: u8) -> Seq<Seq<u8>>
    decreases s.len(),
{
    if s.len() == 0 {
        seq![Seq::<u8>::empty()]
    } else if s.last() == d {
        split_bytes(s.drop_last(), d).push(Seq::<u8>::empty())
    } else {
        let r = split_bytes(s.drop_last(), d);
        r.update(r.len() - 1, r.last().push(s.last()))
    }
}

/// The number of occurrences of `d` in `s`.
pub open spec fn count_byte(s: Seq<u8>, d: u8) -> int
    decreases s.len(),
{
    if s.len() == 0 {
        0
    } else {
        count_byte(s.drop_last(), d) + if s.last() == d {
            1int
        } else {
            0int
        }
    }
}

/// Splitting at N delimiter occurrences yields exactly N + 1 pieces.
pub proof fn lemma_split_bytes_count(s: Seq<u8>, d: u8)
    ensures
        count_byte(s, d) >= 0,
        split_bytes(s, d).len() == count_byte(s, d) + 1,
    decreases s.len(),
{
    if s.len() > 0 {
        lemma_split_bytes_count(s.drop_last(), d);
        assert(split_bytes(s.drop_last(), d).len() >= 1);
    }
}

impl CString {
    /// Works like `strtok` in C: returns the pieces of `txt` between
    /// occurrences of `delim`, in order. Delimiters are dropped, and
    /// empty pieces at the boundaries or between consecutive
    /// delimiters are kept; an empty input yields one empty piece.
    pub fn strtok(txt: Self, delim: char) -> (r: Vec<Self>)
        requires
            txt.wf(),
        ensures
            piece_views(r@) == split_bytes(txt@, delim as u8),
            forall|p: int| 0 <= p < r@.len() ==> (#[trigger] r@[p]).wf(),
    {
        let d: u8 = delim as u8;
        let ghost s = txt@;
        let n = txt.len();
        let mut token: Vec<CString> = Vec::new();
        let mut tmp: Vec<u8> = Vec::new();
        let mut i: usize = 0;
        proof {
            assert(s.take(0) =~= Seq::<u8>::empty());
            assert(piece_views(token@).push(tmp@) =~= split_bytes(s.take(0), d));
        }
        while i < n
            invariant
                i <= n,
                n == s.len(),
                s == txt@,
                txt.wf(),
                d == delim as u8,
                forall|j: int| 0 <= j < tmp@.len() ==> tmp@[j] < 128,
                forall|p: int| 0 <= p < token@.len() ==> (#[trigger] token@[p]).wf(),
                piece_views(token@).push(tmp@) == split_bytes(s.take(i as int), d),
            decreases n - i,
        {
            let ghost pre = s.take(i as int);
            let ghost post = s.take(i + 1);
            proof {
                assert(post.drop_last() =~= pre);
                assert(post.last() == s[i as int]);
            }
            let b = txt.as_bytes()[i];
            if b != d {
                let ghost old_tmp = tmp@;
                tmp.push(b);
                proof {
                    let prev = split_bytes(pre, d);
                    assert(prev == piece_views(token@).push(old_tmp));
                    assert(prev.last() == old_tmp);
                    assert(prev.update(prev.len() - 1, prev.last().push(s[i as int])) =~= piece_views(
                        token@,
                    ).push(tmp@));
                }
            } else {
                let ghost old_token = token@;
                let ghost old_tmp = tmp@;
                let piece = Self::from_utf8(tmp);
                token.push(piece);
                tmp = Vec::new();
                proof {
                    assert(piece_views(token@) =~= piece_views(old_token).push(old_tmp));
                    assert(piece_views(token@).push(tmp@) =~= split_bytes(pre, d).push(
                        Seq::<u8>::empty(),
                    ));
                }
            }
            i = i + 1;
        }
        proof {
            assert(s.take(n as int) =~= s);
        }
        let ghost old_token = token@;
        let ghost old_tmp = tmp@;
        token.push(Self::from_utf8(tmp));
        proof {
            assert(piece_views(token@) =~= piece_views(old_token).push(old_tmp));
        }
        token
    }
}

} // verus!
