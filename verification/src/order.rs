//! Byte-wise lexicographic comparison: shorter sequences rank below
//! longer ones that share their full prefix, and bytes compare by
//! numeric value (so uppercase ASCII sorts before lowercase ASCII).

use core::cmp::Ordering;
use vstd::prelude::*;

use crate::byte_string::CString;

verus! {

/// The `Ordering` named by a three-way comparison result.
pub open spec fn ordering_of(c: int) -> Ordering {
    if c < 0 {
        Ordering::Less
    } else if c > 0 {
        Ordering::Greater
    } else {
        Ordering::Equal
    }
}

/// Three-way lexicographic comparison of two byte sequences:
/// -1 if `a` ranks below `b`, 0 if they are equal, 1 if above.
pub open spec fn cmp_seq(a: Seq<u8>, b: Seq<u8>) -> int
    decreases a.len(),
{
    if a.len() == 0 && b.len() == 0 {
        0
    } else if a.len() == 0 {
        -1
    } else if b.len() == 0 {
        1
    } else if a[0] < b[0] {
        -1
    } else if a[0] > b[0] {
        1
    } else {
        cmp_seq(a.drop_first(), b.drop_first())
    }
}

/// The comparison never leaves {-1, 0, 1}.
pub proof fn lemma_cmp_seq_range(a: Seq<u8>, b: Seq<u8>)
    ensures
        -1 <= cmp_seq(a, b) <= 1,
    decreases a.len(),
{
    if a.len() > 0 && b.len() > 0 && a[0] == b[0] {
        lemma_cmp_seq_range(a.drop_first(), b.drop_first());
    }
}

/// Every sequence compares equal to itself.
pub proof fn lemma_cmp_seq_self(a: Seq<u8>)
    ensures
        cmp_seq(a, a) == 0,
    decreases a.len(),
{
    if a.len() > 0 {
        lemma_cmp_seq_self(a.drop_first());
    }
}

/// Swapping the arguments negates the result, so `a` ranks below `b`
/// exactly when `b` ranks above `a`.
pub proof fn lemma_cmp_seq_flip(a: Seq<u8>, b: Seq<u8>)
    ensures
        cmp_seq(b, a) == -cmp_seq(a, b),
    decreases a.len(),
{
    if a.len() > 0 && b.len() > 0 && a[0] == b[0] {
        lemma_cmp_seq_flip(a.drop_first(), b.drop_first());
    }
}

/// The comparison returns 0 exactly on equal sequences.
pub proof fn lemma_cmp_seq_eq(a: Seq<u8>, b: Seq<u8>)
    ensures
        cmp_seq(a, b) == 0 <==> a == b,
    decreases a.len(),
{
    if a == b {
        lemma_cmp_seq_self(a);
    }
    if cmp_seq(a, b) == 0 {
        if a.len() > 0 && b.len() > 0 && a[0] == b[0] {
            lemma_cmp_seq_eq(a.drop_first(), b.drop_first());
            assert forall|j: int| 0 <= j < a.len() implies a[j] == b[j] by {
                if j > 0 {
                    assert(a[j] == a.drop_first()[j - 1]);
                    assert(b[j] == b.drop_first()[j - 1]);
                }
            }
            assert(a =~= b);
        } else {
            assert(a =~= b);
        }
    }
}

/// Strict transitivity: if `a` ranks below `b` and `b` below `c`,
/// then `a` ranks below `c`.
pub proof fn lemma_cmp_seq_trans(a: Seq<u8>, b: Seq<u8>, c: Seq<u8>)
    requires
        cmp_seq(a, b) == -1,
        cmp_seq(b, c) == -1,
    ensures
        cmp_seq(a, c) == -1,
    decreases a.len(),
{
    if a.len() > 0 && b.len() > 0 && c.len() > 0 && a[0] == b[0] && b[0] == c[0] {
        lemma_cmp_seq_trans(a.drop_first(), b.drop_first(), c.drop_first());
    }
}

/// Dropping an equal prefix of both sequences leaves the comparison
/// unchanged.
proof fn lemma_cmp_seq_skip(a: Seq<u8>, b: Seq<u8>, i: int)
    requires
        0 <= i <= a.len(),
        i <= b.len(),
        forall|j: int| 0 <= j < i ==> a[j] == b[j],
    ensures
        cmp_seq(a, b) == cmp_seq(a.skip(i), b.skip(i)),
    decreases i,
{
    if i > 0 {
        lemma_cmp_seq_skip(a.drop_first(), b.drop_first(), i - 1);
        assert(a.drop_first().skip(i - 1) =~= a.skip(i));
        assert(b.drop_first().skip(i - 1) =~= b.skip(i));
        assert(a.skip(0) =~= a);
        assert(b.skip(0) =~= b);
    } else {
        assert(a.skip(0) =~= a);
        assert(b.skip(0) =~= b);
    }
}

/// Three-way comparison of two byte buffers: 0 if equal, -1 if the
/// first ranks below the second, 1 if above.
pub fn cstring_cmp(s1: &Vec<u8>, s2: &Vec<u8>) -> (r: i32)
    ensures
        r == cmp_seq(s1@, s2@),
{
    let n: usize = if s1.len() < s2.len() {
        s1.len()
    } else {
        s2.len()
    };
    let mut i: usize = 0;
    while i < n
        invariant
            0 <= i <= n,
            n <= s1@.len(),
            n <= s2@.len(),
            n == s1@.len() || n == s2@.len(),
            forall|j: int| 0 <= j < i ==> s1@[j] == s2@[j],
        decreases n - i,
    {
        if s1[i] < s2[i] {
            proof {
                lemma_cmp_seq_skip(s1@, s2@, i as int);
                assert(s1@.skip(i as int)[0] == s1@[i as int]);
                assert(s2@.skip(i as int)[0] == s2@[i as int]);
            }
            return -1;
        }
        if s1[i] > s2[i] {
            proof {
                lemma_cmp_seq_skip(s1@, s2@, i as int);
                assert(s1@.skip(i as int)[0] == s1@[i as int]);
                assert(s2@.skip(i as int)[0] == s2@[i as int]);
            }
            return 1;
        }
        i = i + 1;
    }
    proof {
        lemma_cmp_seq_skip(s1@, s2@, n as int);
    }
    if s1.len() < s2.len() {
        -1
    } else if s1.len() > s2.len() {
        1
    } else {
        0
    }
}

impl vstd::std_specs::cmp::PartialEqSpecImpl for CString {
    open spec fn obeys_eq_spec() -> bool {
        true
    }

    open spec fn eq_spec(&self, other: &Self) -> bool {
        self@ == other@
    }
}

impl PartialEq for CString {
    fn eq(&self, other: &Self) -> (r: bool) {
        let res = cstring_cmp(self.as_bytes(), other.as_bytes());
        proof {
            lemma_cmp_seq_eq(self@, other@);
        }
        res == 0
    }

    fn ne(&self, other: &Self) -> (r: bool) {
        let res = cstring_cmp(self.as_bytes(), other.as_bytes());
        proof {
            lemma_cmp_seq_eq(self@, other@);
        }
        res != 0
    }
}

impl vstd::std_specs::cmp::PartialOrdSpecImpl for CString {
    open spec fn obeys_partial_cmp_spec() -> bool {
        true
    }

    open spec fn partial_cmp_spec(&self, other: &Self) -> Option<Ordering> {
        Some(ordering_of(cmp_seq(self@, other@)))
    }
}

impl PartialOrd for CString {
    fn partial_cmp(&self, other: &Self) -> (r: Option<Ordering>) {
        let res = cstring_cmp(self.as_bytes(), other.as_bytes());
        proof {
            lemma_cmp_seq_range(self@, other@);
        }
        match res {
            -1 => Some(Ordering::Less),
            0 => Some(Ordering::Equal),
            1 => Some(Ordering::Greater),
            _ => None,
        }
    }

    fn lt(&self, other: &Self) -> (r: bool) {
        let res = cstring_cmp(self.as_bytes(), other.as_bytes());
        proof {
            lemma_cmp_seq_range(self@, other@);
        }
        res == -1
    }

    fn le(&self, other: &Self) -> (r: bool) {
        let res = cstring_cmp(self.as_bytes(), other.as_bytes());
        proof {
            lemma_cmp_seq_range(self@, other@);
        }
        res != 1
    }

    fn gt(&self, other: &Self) -> (r: bool) {
        let res = cstring_cmp(self.as_bytes(), other.as_bytes());
        proof {
            lemma_cmp_seq_range(self@, other@);
        }
        res == 1
    }

    fn ge(&self, other: &Self) -> (r: bool) {
        let res = cstring_cmp(self.as_bytes(), other.as_bytes());
        proof {
            lemma_cmp_seq_range(self@, other@);
        }
        res != -1
    }
}

} // verus!
