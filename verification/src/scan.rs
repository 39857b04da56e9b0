//! A `strtol`-style integer scanner: consumes an optional sign and a
//! maximal run of decimal digits from a cursor, anchored at the
//! cursor's current position, and parses them as a 32-bit integer.

use vstd::prelude::*;

use crate::byte_string::CString;
use crate::cursor::Cursor;

verus! {

/// ASCII decimal digit.
pub open spec fn is_digit(b: u8) -> bool {
    0x30 <= b <= 0x39
}

/// ASCII `+` or `-`.
pub open spec fn is_sign(b: u8) -> bool {
    b == 0x2b || b == 0x2d
}

/// The scanner's grammar accepts the sequence when it starts with a
/// digit, or with a sign immediately followed by a digit.
pub open spec fn scan_accepts(s: Seq<u8>) -> bool {
    s.len() > 0 && (is_digit(s[0]) || (is_sign(s[0]) && s.len() > 1 && is_digit(s[1])))
}

/// 1 when the sequence starts with a sign byte, else 0.
pub open spec fn sign_len(s: Seq<u8>) -> int {
    if s.len() > 0 && is_sign(s[0]) {
        1
    } else {
        0
    }
}

/// The number of consecutive digit bytes starting at `from`.
pub open spec fn digit_run_len(s: Seq<u8>, from: int) -> int
    decreases s.len() - from,
{
    if from < 0 || from >= s.len() || !is_digit(s[from]) {
        0
    } else {
        1 + digit_run_len(s, from + 1)
    }
}

/// The value of a sequence of decimal digit bytes, most significant
/// first.
pub open spec fn digits_val(s: Seq<u8>) -> int
    decreases s.len(),
{
    if s.len() == 0 {
        0
    } else {
        10 * digits_val(s.drop_last()) + (s.last() - 0x30)
    }
}

/// The signed value spelled by the accepted prefix of the sequence:
/// the digit run after the optional sign, negated under a leading `-`.
pub open spec fn scan_value(s: Seq<u8>) -> int {
    let sl = sign_len(s);
    let mag = digits_val(s.subrange(sl, sl + digit_run_len(s, sl)));
    if s.len() > 0 && s[0] == 0x2d {
        -mag
    } else {
        mag
    }
}

/// A digit string's value is never negative.
proof fn lemma_digits_val_nonneg(s: Seq<u8>)
    requires
        forall|i: int| 0 <= i < s.len() ==> is_digit(#[trigger] s[i]),
    ensures
        digits_val(s) >= 0,
    decreases s.len(),
{
    if s.len() > 0 {
        lemma_digits_val_nonneg(s.drop_last());
    }
}

/// Extending a digit string never shrinks its value.
proof fn lemma_digits_val_prefix(s: Seq<u8>, i: int)
    requires
        forall|j: int| 0 <= j < s.len() ==> is_digit(#[trigger] s[j]),
        0 <= i <= s.len(),
    ensures
        digits_val(s.take(i)) <= digits_val(s),
    decreases s.len() - i,
{
    if i < s.len() {
        lemma_digits_val_prefix(s, i + 1);
        assert(s.take(i + 1).drop_last() =~= s.take(i));
        lemma_digits_val_nonneg(s.take(i));
    } else {
        assert(s.take(i) =~= s);
    }
}

/// A run of digits bounded on the right by a non-digit (or the end of
/// the sequence) is exactly the maximal digit run.
proof fn lemma_digit_run_len_exact(s: Seq<u8>, from: int, n: int)
    requires
        0 <= from,
        0 <= n,
        from + n <= s.len(),
        forall|j: int| from <= j < from + n ==> is_digit(#[trigger] s[j]),
        from + n == s.len() || !is_digit(s[from + n]),
    ensures
        digit_run_len(s, from) == n,
    decreases n,
{
    if n > 0 {
        lemma_digit_run_len_exact(s, from + 1, n - 1);
    }
}

/// Parses a string of decimal digit bytes as an `i32` magnitude with
/// the given sign; rejects values outside the 32-bit signed range.
fn parse_digits(neg: bool, digits: &Vec<u8>) -> (r: Option<i32>)
    requires
        forall|i: int| 0 <= i < digits@.len() ==> is_digit(#[trigger] digits@[i]),
    ensures
        ({
            let v = if neg {
                -digits_val(digits@)
            } else {
                digits_val(digits@)
            };
            r == (if i32::MIN <= v <= i32::MAX {
                Some(v as i32)
            } else {
                None::<i32>
            })
        }),
{
    let limit: u64 = if neg {
        2147483648
    } else {
        2147483647
    };
    let mut acc: u64 = 0;
    let n = digits.len();
    let mut i: usize = 0;
    while i < n
        invariant
            0 <= i <= n,
            n == digits@.len(),
            forall|j: int| 0 <= j < digits@.len() ==> is_digit(#[trigger] digits@[j]),
            limit == (if neg {
                2147483648u64
            } else {
                2147483647u64
            }),
            acc == digits_val(digits@.take(i as int)),
            acc <= limit,
        decreases n - i,
    {
        let d = digits[i] - 0x30;
        let next: u64 = acc * 10 + d as u64;
        proof {
            assert(digits@.take(i + 1).drop_last() =~= digits@.take(i as int));
        }
        if next > limit {
            proof {
                lemma_digits_val_prefix(digits@, i + 1);
            }
            return None;
        }
        acc = next;
        i = i + 1;
    }
    proof {
        assert(digits@.take(n as int) =~= digits@);
    }
    if neg {
        if acc == 2147483648 {
            Some(i32::MIN)
        } else {
            Some(-(acc as i32))
        }
    } else {
        Some(acc as i32)
    }
}

impl CString {
    /// Works like `strtol` in C: consumes an optional sign and the
    /// following run of digits from the cursor, leaving it at the
    /// first non-digit byte, and returns the value read. Returns
    /// nothing, consuming nothing, when the cursor's next bytes do
    /// not start an integer; returns nothing, with the run consumed,
    /// when the value overflows the 32-bit signed range.
    pub fn strtol(cur: &mut Cursor) -> (r: Option<i32>)
        ensures
            !scan_accepts(old(cur)@) ==> final(cur)@ == old(cur)@ && r == None::<i32>,
            scan_accepts(old(cur)@) ==> ({
                let rem = old(cur)@;
                let sl = sign_len(rem);
                let k = digit_run_len(rem, sl);
                let v = scan_value(rem);
                &&& final(cur)@ == rem.skip(sl + k)
                &&& r == (if i32::MIN <= v <= i32::MAX {
                    Some(v as i32)
                } else {
                    None::<i32>
                })
            }),
    {
        let ghost rem = cur@;
        let first = match cur.peek() {
            Some(b) => b,
            None => {
                return None;
            },
        };
        let neg: bool;
        if first >= 0x30 && first <= 0x39 {
            neg = false;
        } else if first == 0x2b || first == 0x2d {
            match cur.peek_second() {
                Some(b) => {
                    if b < 0x30 || b > 0x39 {
                        return None;
                    }
                },
                None => {
                    return None;
                },
            }
            neg = first == 0x2d;
            let _ = cur.next();
        } else {
            return None;
        }
        let ghost sl = sign_len(rem);
        let mut digits: Vec<u8> = Vec::new();
        proof {
            assert(cur@ =~= rem.skip(sl + digits@.len()));
            assert(digits@ =~= rem.subrange(sl, sl + digits@.len()));
        }
        loop
            invariant
                0 <= sl,
                sl + digits@.len() <= rem.len(),
                cur@ == rem.skip(sl + digits@.len()),
                digits@ == rem.subrange(sl, sl + digits@.len()),
                forall|j: int| 0 <= j < digits@.len() ==> is_digit(#[trigger] digits@[j]),
            ensures
                0 <= sl,
                sl + digits@.len() <= rem.len(),
                cur@ == rem.skip(sl + digits@.len()),
                digits@ == rem.subrange(sl, sl + digits@.len()),
                forall|j: int| 0 <= j < digits@.len() ==> is_digit(#[trigger] digits@[j]),
                cur@.len() == 0 || !is_digit(cur@[0]),
            decreases cur@.len(),
        {
            match cur.peek() {
                Some(b) => {
                    if b >= 0x30 && b <= 0x39 {
                        let _ = cur.next();
                        digits.push(b);
                        proof {
                            assert(cur@ =~= rem.skip(sl + digits@.len()));
                            assert(digits@ =~= rem.subrange(sl, sl + digits@.len()));
                        }
                    } else {
                        break;
                    }
                },
                None => {
                    break;
                },
            }
        }
        proof {
            assert forall|j: int| sl <= j < sl + digits@.len() implies is_digit(rem[j]) by {
                assert(rem.subrange(sl, sl + digits@.len())[j - sl] == rem[j]);
            }
            if cur@.len() > 0 {
                assert(cur@[0] == rem[sl + digits@.len()]);
            }
            lemma_digit_run_len_exact(rem, sl, digits@.len() as int);
        }
        parse_digits(neg, &digits)
    }
}

} // verus!
