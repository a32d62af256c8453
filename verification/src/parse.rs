//! Parsing a rating cell: a skill rating is a plain decimal numeral that
//! fits in a `u32`.

use vstd::prelude::*;

verus! {

/// Every character of `s` is a decimal digit.
pub open spec fn all_digits(s: Seq<char>) -> bool {
    forall|t: int| 0 <= t < s.len() ==> '0' <= #[trigger] s[t] <= '9'
}

/// `s` is a well-formed numeral: non-empty and all digits.
pub open spec fn is_dec_digits(s: Seq<char>) -> bool {
    s.len() > 0 && all_digits(s)
}

/// The value of a digit string read in base ten.
pub open spec fn dec_val(s: Seq<char>) -> int
    decreases s.len(),
{
    if s.len() == 0 {
        0
    } else {
        10 * dec_val(s.drop_last()) + (s.last() as int - '0' as int)
    }
}

/// What a rating cell parses to: its base-ten value if it is a well-formed
/// numeral no larger than `u32::MAX`, and nothing otherwise.
pub open spec fn parsed_u32(s: Seq<char>) -> Option<u32> {
    if is_dec_digits(s) && dec_val(s) <= u32::MAX {
        Some(dec_val(s) as u32)
    } else {
        None
    }
}

/// A digit string's value is never negative.
proof fn lemma_dec_val_nonneg(s: Seq<char>)
    requires
        all_digits(s),
    ensures
        dec_val(s) >= 0,
    decreases s.len(),
{
    if s.len() > 0 {
        assert(forall|t: int| 0 <= t < s.drop_last().len() ==> s.drop_last()[t] == s[t]);
        lemma_dec_val_nonneg(s.drop_last());
    }
}

/// A prefix of a digit string never exceeds the whole string's value.
proof fn lemma_dec_val_prefix_le(s: Seq<char>, i: int)
    requires
        0 <= i <= s.len(),
        all_digits(s),
    ensures
        dec_val(s.take(i)) <= dec_val(s),
    decreases s.len(),
{
    if i < s.len() {
        let t = s.drop_last();
        assert(forall|w: int| 0 <= w < t.len() ==> t[w] == s[w]);
        lemma_dec_val_prefix_le(t, i);
        lemma_dec_val_nonneg(t);
        assert(s.take(i) =~= t.take(i));
    } else {
        assert(s.take(i) =~= s);
    }
}

/// Parses a rating cell: returns its value exactly when the cell is a
/// non-empty string of decimal digits whose value fits in a `u32`.
pub fn parse_u32(s: &str) -> (r: Option<u32>)
    ensures
        r == parsed_u32(s@),
{
    let n = s.unicode_len();
    if n == 0 {
        return None;
    }
    let mut acc: u32 = 0;
    for i in 0..n
        invariant
            n == s@.len(),
            forall|t: int| 0 <= t < i ==> '0' <= #[trigger] s@[t] <= '9',
            acc == dec_val(s@.take(i as int)),
    {
        let c = s.get_char(i);
        if c < '0' || c > '9' {
            return None;
        }
        let d = (c as u32) - ('0' as u32);
        if acc > (u32::MAX - d) / 10 {
            proof {
                assert(s@.take(i + 1).drop_last() =~= s@.take(i as int));
                assert(s@.take(i + 1).last() == s@[i as int]);
                assert(dec_val(s@.take(i + 1)) == 10 * acc + d);
                assert(10 * acc + d > u32::MAX) by (nonlinear_arith)
                    requires
                        acc > (u32::MAX - d) / 10,
                        0 <= d <= 9,
                        acc <= u32::MAX,
                ;
                if is_dec_digits(s@) {
                    lemma_dec_val_prefix_le(s@, i + 1);
                }
            }
            return None;
        }
        proof {
            assert(s@.take(i + 1).drop_last() =~= s@.take(i as int));
            assert(s@.take(i + 1).last() == s@[i as int]);
            assert(acc * 10 + d <= u32::MAX) by (nonlinear_arith)
                requires
                    acc <= (u32::MAX - d) / 10,
                    0 <= d <= 9,
            ;
        }
        acc = acc * 10 + d;
    }
    proof {
        assert(s@.take(n as int) =~= s@);
    }
    Some(acc)
}

} // verus!
