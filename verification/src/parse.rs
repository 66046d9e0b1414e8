//! Decimal parsers for the textual inputs: table-spec fields and
//! score values.  Each parser's result is pinned down exactly by a
//! spec-level reading of the byte sequence.

use vstd::prelude::*;

verus! {

/// Whether `b` is an ASCII decimal digit.
pub open spec fn spec_is_digit(b: u8) -> bool {
    0x30 <= b <= 0x39
}

/// Whether every byte of `s` is an ASCII decimal digit.
pub open spec fn spec_all_digits(s: Seq<u8>) -> bool {
    forall|i: int| 0 <= i < s.len() ==> spec_is_digit(#[trigger] s[i])
}

/// The number a sequence of decimal digits denotes, most significant
/// digit first.
pub open spec fn spec_digits_value(s: Seq<u8>) -> int
    decreases s.len(),
{
    if s.len() == 0 {
        0
    } else {
        spec_digits_value(s.drop_last()) * 10 + (s.last() - 0x30)
    }
}

/// A digit string denotes a non-negative number.
pub proof fn lemma_digits_value_nonneg(s: Seq<u8>)
    requires
        spec_all_digits(s),
    ensures
        spec_digits_value(s) >= 0,
    decreases s.len(),
{
    if s.len() > 0 {
        assert(spec_all_digits(s.drop_last()));
        lemma_digits_value_nonneg(s.drop_last());
        assert(spec_digits_value(s.drop_last()) * 10 >= 0) by (nonlinear_arith)
            requires
                spec_digits_value(s.drop_last()) >= 0,
        {
        }
    }
}

/// A prefix of a digit string denotes at most what the whole string
/// denotes.
proof fn lemma_digits_value_take_le(s: Seq<u8>, i: int)
    requires
        spec_all_digits(s),
        0 <= i <= s.len(),
    ensures
        spec_digits_value(s.take(i)) <= spec_digits_value(s),
    decreases s.len() - i,
{
    if i < s.len() {
        let t = s.take(i + 1);
        assert(t.drop_last() =~= s.take(i));
        assert(spec_all_digits(s.take(i)));
        lemma_digits_value_nonneg(s.take(i));
        assert(spec_digits_value(t) == spec_digits_value(s.take(i)) * 10 + (s[i] - 0x30));
        assert(spec_digits_value(s.take(i)) * 10 >= spec_digits_value(s.take(i)))
            by (nonlinear_arith)
            requires
                spec_digits_value(s.take(i)) >= 0,
        {
        }
        lemma_digits_value_take_le(s, i + 1);
    } else {
        assert(s.take(i) =~= s);
    }
}

/// Read an unsigned decimal number.  Succeeds exactly on a non-empty
/// all-digit string whose value fits in a `usize`, and then yields
/// that value.
pub fn parse_usize(s: &[u8]) -> (r: Option<usize>)
    ensures
        match r {
            Some(v) => s@.len() > 0 && spec_all_digits(s@) && v == spec_digits_value(s@),
            None => s@.len() == 0 || !spec_all_digits(s@) || spec_digits_value(s@) > usize::MAX,
        },
{
    if s.len() == 0 {
        return None;
    }
    let mut acc: usize = 0;
    let n = s.len();
    for i in 0..n
        invariant
            n == s@.len(),
            spec_all_digits(s@.take(i as int)),
            acc == spec_digits_value(s@.take(i as int)),
    {
        let b = s[i];
        if b < 0x30 || b > 0x39 {
            return None;
        }
        let d = (b - 0x30) as usize;
        proof {
            assert(s@.take(i + 1).drop_last() =~= s@.take(i as int));
            assert(s@.take(i + 1).last() == s@[i as int]);
        }
        if acc > (usize::MAX - d) / 10 {
            proof {
                lemma_digits_value_nonneg(s@.take(i + 1));
                assert(spec_digits_value(s@.take(i + 1)) == acc * 10 + d);
                assert(acc * 10 + d > usize::MAX) by (nonlinear_arith)
                    requires
                        acc > (usize::MAX - d) / 10,
                        0 <= d <= 9,
                        acc >= 0,
                {
                }
                if spec_all_digits(s@) {
                    lemma_digits_value_take_le(s@, i + 1);
                }
            }
            return None;
        }
        assert(acc * 10 + d <= usize::MAX) by (nonlinear_arith)
            requires
                acc <= (usize::MAX - d) / 10,
                0 <= d <= 9,
                acc >= 0,
        {
        }
        acc = acc * 10 + d;
    }
    proof {
        assert(s@.take(n as int) =~= s@);
    }
    Some(acc)
}

/// The signed number a byte string denotes: an optional sign, then
/// digits, within the bounds of an `i32`.
pub open spec fn spec_parse_score(s: Seq<u8>) -> Option<i32> {
    if s.len() > 0 && (s[0] == 0x2B || s[0] == 0x2D) {
        let mag = s.drop_first();
        if mag.len() > 0 && spec_all_digits(mag) {
            if s[0] == 0x2D {
                if spec_digits_value(mag) <= 0x8000_0000 {
                    Some((-spec_digits_value(mag)) as i32)
                } else {
                    None
                }
            } else {
                if spec_digits_value(mag) <= 0x7FFF_FFFF {
                    Some(spec_digits_value(mag) as i32)
                } else {
                    None
                }
            }
        } else {
            None
        }
    } else {
        if s.len() > 0 && spec_all_digits(s) && spec_digits_value(s) <= 0x7FFF_FFFF {
            Some(spec_digits_value(s) as i32)
        } else {
            None
        }
    }
}

/// Read a signed decimal score.  Succeeds exactly when the string is
/// an optional `+` or `-` sign followed by digits and the value fits
/// in an `i32`.
pub fn parse_score(s: &[u8]) -> (r: Option<i32>)
    ensures
        r == spec_parse_score(s@),
{
    if s.len() == 0 {
        return None;
    }
    let first = s[0];
    if first == 0x2B || first == 0x2D {
        let mag = &s[1..s.len()];
        assert(mag@ =~= s@.drop_first());
        match parse_usize(mag) {
            Some(v) => {
                if first == 0x2D {
                    if v <= 0x8000_0000 {
                        let w: i64 = -(v as i64);
                        Some(w as i32)
                    } else {
                        None
                    }
                } else {
                    if v <= 0x7FFF_FFFF {
                        Some(v as i32)
                    } else {
                        None
                    }
                }
            },
            None => {
                proof {
                    if mag@.len() > 0 && spec_all_digits(mag@) {
                        lemma_digits_value_nonneg(mag@);
                    }
                }
                None
            },
        }
    } else {
        match parse_usize(s) {
            Some(v) => {
                if v <= 0x7FFF_FFFF {
                    Some(v as i32)
                } else {
                    None
                }
            },
            None => {
                proof {
                    if s@.len() > 0 && spec_all_digits(s@) {
                        lemma_digits_value_nonneg(s@);
                    }
                }
                None
            },
        }
    }
}

} // verus!
