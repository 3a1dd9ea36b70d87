//! Decimal numbers in attribute values.
use vstd::prelude::*;

verus! {

pub open spec fn is_digit(c: u8) -> bool {
    48 <= c <= 57
}

pub open spec fn all_digits(s: Seq<u8>) -> bool {
    forall|i: int| 0 <= i < s.len() ==> is_digit(#[trigger] s[i])
}

/// The value of a run of decimal digits, most significant first.
pub open spec fn digits_value(s: Seq<u8>) -> int
    decreases s.len(),
{
    if s.len() == 0 {
        0
    } else {
        10 * digits_value(s.drop_last()) + (s.last() - 48)
    }
}

/// A decimal numeral: an optional sign (`-` only where `signed`) and at least
/// one digit, and nothing else.
pub open spec fn numeral_value(s: Seq<u8>, signed: bool) -> Option<int> {
    if s.len() > 0 && (s[0] == 43 || (signed && s[0] == 45)) {
        let d = s.drop_first();
        if d.len() > 0 && all_digits(d) {
            Some(
                if s[0] == 45 {
                    -digits_value(d)
                } else {
                    digits_value(d)
                },
            )
        } else {
            None
        }
    } else if s.len() > 0 && all_digits(s) {
        Some(digits_value(s))
    } else {
        None
    }
}

/// The `i32` that a numeral names, where it names one.
pub open spec fn i32_value(s: Seq<u8>) -> Option<int> {
    match numeral_value(s, true) {
        Some(v) => if i32::MIN <= v <= i32::MAX {
            Some(v)
        } else {
            None
        },
        None => None,
    }
}

/// The `u8` that a numeral names, where it names one.
pub open spec fn u8_value(s: Seq<u8>) -> Option<int> {
    match numeral_value(s, false) {
        Some(v) => if v <= u8::MAX {
            Some(v)
        } else {
            None
        },
        None => None,
    }
}

proof fn lemma_digits_value_grows(s: Seq<u8>, k: int)
    requires
        all_digits(s),
        0 <= k <= s.len(),
    ensures
        0 <= digits_value(s.take(k)) <= digits_value(s),
    decreases s.len(),
{
    if s.len() > 0 {
        if k == s.len() {
            assert(s.take(k) =~= s);
            lemma_digits_value_grows(s.drop_last(), k - 1);
            assert(s.drop_last().take(k - 1) =~= s.drop_last());
        } else {
            lemma_digits_value_grows(s.drop_last(), k);
            assert(s.drop_last().take(k) =~= s.take(k));
        }
    } else {
        assert(s.take(k) =~= s);
    }
}

/// The value of the digits `s[lo..hi]`, where they are all digits and the
/// value is at most `limit`.
fn digits_at_most(s: &[u8], lo: usize, hi: usize, limit: u64) -> (r: Option<u64>)
    requires
        lo < hi <= s@.len(),
        limit <= 0x1_0000_0000,
    ensures
        r == (if all_digits(s@.subrange(lo as int, hi as int)) && digits_value(
            s@.subrange(lo as int, hi as int),
        ) <= limit {
            Some(digits_value(s@.subrange(lo as int, hi as int)) as u64)
        } else {
            None::<u64>
        }),
        r matches Some(v) ==> v <= limit,
{
    let ghost d = s@.subrange(lo as int, hi as int);
    let mut acc: u64 = 0;
    let mut i: usize = lo;
    assert(d.take(0) =~= Seq::<u8>::empty());
    while i < hi
        invariant
            lo <= i <= hi <= s@.len(),
            limit <= 0x1_0000_0000,
            d == s@.subrange(lo as int, hi as int),
            all_digits(d.take(i - lo)),
            acc == digits_value(d.take(i - lo)),
            acc <= limit,
        decreases hi - i,
    {
        let c = s[i];
        assert(d.take(i - lo + 1).drop_last() =~= d.take(i - lo));
        assert(d[i - lo] == c);
        if c < 48 || c > 57 {
            assert(!is_digit(d[i - lo]));
            return None;
        }
        acc = acc * 10 + (c - 48) as u64;
        i = i + 1;
        assert(all_digits(d.take(i - lo)));
        if acc > limit {
            proof {
                if all_digits(d) {
                    lemma_digits_value_grows(d, i - lo);
                }
            }
            return None;
        }
    }
    assert(d.take(hi - lo) =~= d);
    Some(acc)
}

/// Reads `s[lo..hi]` as a numeral whose value lies in `-neg_limit..=pos_limit`.
fn numeral_in_range(s: &[u8], lo: usize, hi: usize, signed: bool, neg_limit: u64, pos_limit: u64) -> (r:
    Option<i64>)
    requires
        lo <= hi <= s@.len(),
        neg_limit <= 0x1_0000_0000,
        pos_limit <= 0x1_0000_0000,
    ensures
        r == (match numeral_value(s@.subrange(lo as int, hi as int), signed) {
            Some(v) => if -neg_limit <= v <= pos_limit {
                Some(v as i64)
            } else {
                None::<i64>
            },
            None => None::<i64>,
        }),
{
    let ghost t = s@.subrange(lo as int, hi as int);
    if lo == hi {
        return None;
    }
    let c = s[lo];
    assert(t[0] == c);
    assert(t.drop_first() =~= s@.subrange(lo + 1, hi as int));
    if c == 43 || (signed && c == 45) {
        if lo + 1 == hi {
            return None;
        }
        proof {
            if all_digits(t.drop_first()) {
                lemma_digits_value_grows(t.drop_first(), 0);
            }
        }
        if c == 45 {
            match digits_at_most(s, lo + 1, hi, neg_limit) {
                Some(v) => Some(-(v as i64)),
                None => None,
            }
        } else {
            match digits_at_most(s, lo + 1, hi, pos_limit) {
                Some(v) => Some(v as i64),
                None => None,
            }
        }
    } else {
        proof {
            if all_digits(t) {
                lemma_digits_value_grows(t, 0);
                assert(t.take(0) =~= Seq::<u8>::empty());
            }
        }
        match digits_at_most(s, lo, hi, pos_limit) {
            Some(v) => Some(v as i64),
            None => None,
        }
    }
}

/// Reads `s[lo..hi]` as an `i32` numeral: an optional `+` or `-`, then
/// decimal digits.
pub fn parse_i32(s: &[u8], lo: usize, hi: usize) -> (r: Option<i32>)
    requires
        lo <= hi <= s@.len(),
    ensures
        match r {
            Some(v) => i32_value(s@.subrange(lo as int, hi as int)) == Some(v as int),
            None => i32_value(s@.subrange(lo as int, hi as int)) is None,
        },
{
    match numeral_in_range(s, lo, hi, true, 0x8000_0000, 0x7fff_ffff) {
        Some(v) => Some(v as i32),
        None => None,
    }
}

/// Reads `s[lo..hi]` as a `u8` numeral: an optional `+`, then decimal digits.
pub fn parse_u8(s: &[u8], lo: usize, hi: usize) -> (r: Option<u8>)
    requires
        lo <= hi <= s@.len(),
    ensures
        match r {
            Some(v) => u8_value(s@.subrange(lo as int, hi as int)) == Some(v as int),
            None => u8_value(s@.subrange(lo as int, hi as int)) is None,
        },
{
    let ghost t = s@.subrange(lo as int, hi as int);
    let r = numeral_in_range(s, lo, hi, false, 0, 0xff);
    proof {
        if let Some(v) = numeral_value(t, false) {
            if t.len() > 0 && t[0] == 43 {
                assert(v == digits_value(t.drop_first()));
                lemma_digits_value_grows(t.drop_first(), 0);
            } else {
                lemma_digits_value_grows(t, 0);
            }
        }
    }
    match r {
        Some(v) => Some(v as u8),
        None => None,
    }
}

} // verus!
