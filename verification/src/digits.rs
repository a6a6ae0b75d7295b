//! ASCII decimal numerals: the spec-level value and rendering of unsigned
//! decimals, and the executable routines the codec builds on.

use vstd::prelude::*;

verus! {

/// An ASCII digit byte.
pub open spec fn is_digit(b: u8) -> bool {
    48 <= b <= 57
}

/// Every byte of `s` is an ASCII digit.
pub open spec fn all_digits(s: Seq<u8>) -> bool {
    forall|i: int| 0 <= i < s.len() ==> is_digit(#[trigger] s[i])
}

/// The number denoted by a digit string, most significant digit first.
pub open spec fn dec_value(s: Seq<u8>) -> int
    decreases s.len(),
{
    if s.len() == 0 {
        0
    } else {
        dec_value(s.drop_last()) * 10 + (s.last() as int - 48)
    }
}

/// The canonical digit string of `n`: no leading zeros.
pub open spec fn dec_digits(n: nat) -> Seq<u8>
    decreases n,
{
    if n < 10 {
        seq![(48 + n) as u8]
    } else {
        dec_digits(n / 10).push((48 + n % 10) as u8)
    }
}

pub proof fn lemma_dec_value_push(s: Seq<u8>, d: u8)
    ensures
        dec_value(s.push(d)) == dec_value(s) * 10 + (d as int - 48),
{
    assert(s.push(d).drop_last() =~= s);
    assert(s.push(d).last() == d);
}

pub proof fn lemma_dec_value_nonneg(s: Seq<u8>)
    requires
        all_digits(s),
    ensures
        dec_value(s) >= 0,
    decreases s.len(),
{
    if s.len() > 0 {
        assert(all_digits(s.drop_last()));
        lemma_dec_value_nonneg(s.drop_last());
    }
}

/// A digit string's value never shrinks as the string extends to the right.
pub proof fn lemma_dec_value_take_le(s: Seq<u8>, i: int)
    requires
        all_digits(s),
        0 <= i <= s.len(),
    ensures
        dec_value(s.take(i)) <= dec_value(s),
    decreases s.len() - i,
{
    if i == s.len() {
        assert(s.take(i) =~= s);
    } else {
        assert(s.take(i + 1) =~= s.take(i).push(s[i]));
        lemma_dec_value_push(s.take(i), s[i]);
        assert(all_digits(s.take(i)));
        lemma_dec_value_nonneg(s.take(i));
        lemma_dec_value_take_le(s, i + 1);
    }
}

/// The canonical rendering is made of digits, is non-empty, and denotes
/// the number it renders.
pub proof fn lemma_dec_digits(n: nat)
    ensures
        all_digits(dec_digits(n)),
        dec_digits(n).len() >= 1,
        dec_value(dec_digits(n)) == n,
    decreases n,
{
    if n < 10 {
        let s = dec_digits(n);
        assert(s.drop_last() =~= Seq::<u8>::empty());
        assert(dec_value(s) == dec_value(Seq::<u8>::empty()) * 10 + (s.last() as int - 48));
    } else {
        lemma_dec_digits(n / 10);
        lemma_dec_value_push(dec_digits(n / 10), (48 + n % 10) as u8);
        assert(forall|i: int|
            0 <= i < dec_digits(n).len() ==> is_digit(#[trigger] dec_digits(n)[i]));
    }
}

/// Appends the canonical decimal rendering of `n` to `out`.
pub fn push_decimal(out: &mut Vec<u8>, n: u64)
    ensures
        final(out)@ == old(out)@ + dec_digits(n as nat),
    decreases n,
{
    if n < 10 {
        out.push(48 + n as u8);
        proof {
            assert(out@ =~= old(out)@ + dec_digits(n as nat));
        }
    } else {
        push_decimal(out, n / 10);
        out.push(48 + (n % 10) as u8);
        proof {
            assert(out@ =~= old(out)@ + dec_digits(n as nat));
        }
    }
}

/// Reads the digit string `src[start..end]` as an unsigned 64-bit decimal.
///
/// Fails exactly when the range is empty, holds a non-digit, or denotes a
/// number that does not fit.
pub fn parse_digits(src: &[u8], start: usize, end: usize) -> (r: Option<u64>)
    requires
        start <= end <= src@.len(),
    ensures
        ({
            let line = src@.subrange(start as int, end as int);
            match r {
                Some(v) => all_digits(line) && line.len() >= 1 && dec_value(line) == v as int,
                None => !(all_digits(line) && line.len() >= 1 && dec_value(line)
                    <= u64::MAX as int),
            }
        }),
{
    let ghost line = src@.subrange(start as int, end as int);
    if start == end {
        return None;
    }
    let mut value: u64 = 0;
    let mut i: usize = start;
    while i < end
        invariant
            start <= i <= end <= src@.len(),
            line == src@.subrange(start as int, end as int),
            all_digits(line.take(i - start)),
            dec_value(line.take(i - start)) == value as int,
        decreases end - i,
    {
        let b = src[i];
        if b < 48 || b > 57 {
            proof {
                assert(line[i - start] == b);
                assert(!is_digit(line[i - start]));
            }
            return None;
        }
        let d = (b - 48) as u64;
        proof {
            assert(line.take(i - start + 1) =~= line.take(i - start).push(b));
            lemma_dec_value_push(line.take(i - start), b);
        }
        match value.checked_mul(10) {
            Some(v10) => {
                match v10.checked_add(d) {
                    Some(v) => {
                        value = v;
                    }
                    None => {
                        proof {
                            assert(dec_value(line.take(i - start + 1)) > u64::MAX as int);
                            lemma_overflow(line, i - start + 1);
                        }
                        return None;
                    }
                }
            }
            None => {
                proof {
                    lemma_dec_value_nonneg(line.take(i - start));
                    assert(dec_value(line.take(i - start + 1)) > u64::MAX as int);
                    lemma_overflow(line, i - start + 1);
                }
                return None;
            }
        }
        i = i + 1;
    }
    proof {
        assert(line.take(end - start) =~= line);
    }
    Some(value)
}

/// A digit prefix that already exceeds the range dooms the whole string,
/// provided the string goes on in digits.
proof fn lemma_overflow(line: Seq<u8>, k: int)
    requires
        0 <= k <= line.len(),
        dec_value(line.take(k)) > u64::MAX as int,
    ensures
        !(all_digits(line) && dec_value(line) <= u64::MAX as int),
{
    if all_digits(line) {
        lemma_dec_value_take_le(line, k);
    }
}

} // verus!
