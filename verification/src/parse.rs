//! Decimal parsing from text, and splitting a separated pair.

use vstd::prelude::*;

verus! {

/// A decimal digit.
pub open spec fn is_digit(c: char) -> bool {
    '0' <= c && c <= '9'
}

/// The numeric value of one digit.
pub open spec fn digit_val(c: char) -> int {
    c as u32 - '0' as u32
}

/// Every character of `s` is a decimal digit.
pub open spec fn all_digits(s: Seq<char>) -> bool {
    forall|i: int| 0 <= i < s.len() ==> is_digit(s[i])
}

/// The number written by the digit string `s`, most significant digit first.
pub open spec fn digits_val(s: Seq<char>) -> int
    decreases s.len(),
{
    if s.len() == 0 {
        0
    } else {
        digits_val(s.drop_last()) * 10 + digit_val(s.last())
    }
}

/// `s` is a plain decimal notation of a number that fits in a `u32`.
pub open spec fn is_u32_decimal(s: Seq<char>) -> bool {
    s.len() > 0 && all_digits(s) && digits_val(s) <= u32::MAX
}

/// A digit string never writes a negative number.
pub proof fn lemma_digits_val_nonneg(s: Seq<char>)
    requires
        all_digits(s),
    ensures
        digits_val(s) >= 0,
    decreases s.len(),
{
    if s.len() > 0 {
        assert(all_digits(s.drop_last()));
        lemma_digits_val_nonneg(s.drop_last());
    }
}

/// Reading further digits never shrinks the number read so far.
pub proof fn lemma_digits_val_grows(s: Seq<char>, i: int, j: int)
    requires
        all_digits(s),
        0 <= i <= j <= s.len(),
    ensures
        digits_val(s.subrange(0, i)) <= digits_val(s.subrange(0, j)),
    decreases j - i,
{
    if i < j {
        lemma_digits_val_grows(s, i, j - 1);
        let shorter = s.subrange(0, j - 1);
        let longer = s.subrange(0, j);
        assert(longer.drop_last() =~= shorter);
        assert(all_digits(shorter));
        lemma_digits_val_nonneg(shorter);
        assert(digits_val(longer) == digits_val(shorter) * 10 + digit_val(longer.last()));
        assert(digits_val(shorter) * 10 >= digits_val(shorter));
    }
}

/// Reads an unsigned decimal number: every character must be a digit and the
/// value must fit in a `u32`, else nothing comes back.
pub fn parse_u32(s: &str) -> (parsed: Option<u32>)
    ensures
        parsed.is_some() == is_u32_decimal(s@),
        parsed.is_some() ==> parsed == Some(digits_val(s@) as u32),
{
    let count = s.unicode_len();
    if count == 0 {
        return None;
    }
    let mut acc: u32 = 0;
    let mut i: usize = 0;
    while i < count
        invariant
            0 <= i <= count,
            count == s@.len(),
            all_digits(s@.subrange(0, i as int)),
            acc == digits_val(s@.subrange(0, i as int)),
        decreases count - i,
    {
        let c = s.get_char(i);
        if c < '0' || c > '9' {
            return None;
        }
        let d = (c as u32) - ('0' as u32);
        if acc > (u32::MAX - d) / 10 {
            proof {
                let taken = s@.subrange(0, i as int + 1);
                assert(taken.drop_last() =~= s@.subrange(0, i as int));
                assert(acc * 10 + d > u32::MAX) by (nonlinear_arith)
                    requires
                        acc > (u32::MAX - d) / 10,
                        d <= 9,
                ;
                if all_digits(s@) {
                    lemma_digits_val_grows(s@, i as int + 1, s@.len() as int);
                    assert(s@.subrange(0, s@.len() as int) =~= s@);
                }
            }
            return None;
        }
        proof {
            let taken = s@.subrange(0, i as int + 1);
            assert(taken.drop_last() =~= s@.subrange(0, i as int));
            assert(acc * 10 + d <= u32::MAX) by (nonlinear_arith)
                requires
                    acc <= (u32::MAX - d) / 10,
                    d <= 9,
            ;
        }
        acc = acc * 10 + d;
        i = i + 1;
    }
    proof {
        assert(s@.subrange(0, count as int) =~= s@);
    }
    Some(acc)
}

/// A type whose values can be read from text.
pub trait ParseFrom: Sized {
    spec fn can_parse(s: Seq<char>) -> bool;

    spec fn parse_val(s: Seq<char>) -> Self;

    /// Reads a value out of `s`, or nothing if `s` is not a notation of one.
    fn parse_from(s: &str) -> (parsed: Option<Self>)
        ensures
            parsed.is_some() == Self::can_parse(s@),
            parsed.is_some() ==> parsed == Some(Self::parse_val(s@)),
    ;
}

impl ParseFrom for u32 {
    open spec fn can_parse(s: Seq<char>) -> bool {
        is_u32_decimal(s)
    }

    open spec fn parse_val(s: Seq<char>) -> u32 {
        digits_val(s) as u32
    }

    fn parse_from(s: &str) -> (parsed: Option<u32>) {
        parse_u32(s)
    }
}

/// Where `sep` first occurs in `s`, if at all.
pub open spec fn sep_ix(s: Seq<char>, sep: char) -> Option<int>
    decreases s.len(),
{
    if s.len() == 0 {
        None
    } else if s[0] == sep {
        Some(0)
    } else {
        match sep_ix(s.drop_first(), sep) {
            None => None,
            Some(i) => Some(i + 1),
        }
    }
}

/// A sequence without `sep` has no first occurrence of it.
proof fn lemma_sep_ix_none(s: Seq<char>, sep: char)
    requires
        forall|j: int| 0 <= j < s.len() ==> s[j] != sep,
    ensures
        sep_ix(s, sep) is None,
    decreases s.len(),
{
    if s.len() > 0 {
        lemma_sep_ix_none(s.drop_first(), sep);
    }
}

/// The position of `sep` with nothing equal to it earlier is its first
/// occurrence.
proof fn lemma_sep_ix_at(s: Seq<char>, sep: char, i: int)
    requires
        0 <= i < s.len(),
        s[i] == sep,
        forall|j: int| 0 <= j < i ==> s[j] != sep,
    ensures
        sep_ix(s, sep) == Some(i),
    decreases i,
{
    if i > 0 {
        lemma_sep_ix_at(s.drop_first(), sep, i - 1);
    }
}

/// Splits `s` at the first `separator` and reads a value from each half; the
/// result comes back only when the separator occurs and both halves parse.
pub fn parse_pair<T: ParseFrom>(s: &str, separator: char) -> (pair: Option<(T, T)>)
    ensures
        sep_ix(s@, separator) is None ==> pair.is_none(),
        (forall|i: int|
            sep_ix(s@, separator) == Some(i) ==> {
                let head = s@.subrange(0, i);
                let tail = s@.subrange(i + 1, s@.len() as int);
                if T::can_parse(head) && T::can_parse(tail) {
                    pair == Some((T::parse_val(head), T::parse_val(tail)))
                } else {
                    pair.is_none()
                }
            }),
{
    let count = s.unicode_len();
    let mut at: usize = 0;
    while at < count
        invariant
            0 <= at <= count,
            count == s@.len(),
            forall|j: int| 0 <= j < at ==> s@[j] != separator,
        decreases count - at,
    {
        if s.get_char(at) == separator {
            proof {
                lemma_sep_ix_at(s@, separator, at as int);
            }
            let head = s.substring_char(0, at);
            let tail = s.substring_char(at + 1, count);
            let first = T::parse_from(head);
            let second = T::parse_from(tail);
            match (first, second) {
                (Some(a), Some(b)) => {
                    return Some((a, b));
                },
                _ => {
                    return None;
                },
            }
        }
        at = at + 1;
    }
    proof {
        lemma_sep_ix_none(s@, separator);
    }
    None
}

} // verus!
