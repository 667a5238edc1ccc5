//! The record parser: one line splits at the first delimiter into a key and a
//! value; the value is read as a decimal number into tenths.
//!
//! A value is an optionally signed run of digits with an optional fraction
//! (`sign? digits (dot digits)?`). It is kept in tenths: the magnitude is
//! rounded to the nearest tenth, halves away from zero, which the second
//! fraction digit decides. A value whose magnitude exceeds `VAL_LIMIT`
//! tenths is rejected as malformed, as is any other shape.
//!
//! A key is the bytes before the first delimiter. It must be valid text: a
//! line whose key bytes are not is malformed. Uniqueness and order of keys
//! are by exact byte content.

use vstd::prelude::*;

use crate::bytes::{has_byte, first_idx, lemma_first_idx_props, lemma_first_idx_unique, DELIM};
use crate::measurement::VAL_LIMIT;
use crate::text::{is_text, is_text_bytes};
use crate::Error;

verus! {

/// The decimal point byte.
pub const DOT: u8 = 46;

/// The minus sign byte.
pub const MINUS: u8 = 45;

/// The plus sign byte.
pub const PLUS: u8 = 43;

/// Whether `b` is an ASCII decimal digit.
pub open spec fn is_digit(b: u8) -> bool {
    48 <= b && b <= 57
}

/// The numeric value of a digit byte.
pub open spec fn digit_val(b: u8) -> int {
    b - 48
}

/// Whether every byte of `s` is a digit.
pub open spec fn all_digits(s: Seq<u8>) -> bool {
    forall|i: int| 0 <= i < s.len() ==> is_digit(s[i])
}

/// The number written by a run of digit bytes, most significant first.
pub open spec fn digits_val(s: Seq<u8>) -> int
    decreases s.len(),
{
    if s.len() == 0 {
        0
    } else {
        digits_val(s.drop_last()) * 10 + digit_val(s.last())
    }
}

/// A run of digits writes a number that is not negative.
pub proof fn lemma_digits_nonneg(s: Seq<u8>)
    requires
        all_digits(s),
    ensures
        0 <= digits_val(s),
    decreases s.len(),
{
    if s.len() > 0 {
        lemma_digits_nonneg(s.drop_last());
    }
}

/// A prefix of a digit run writes no more than the whole run.
pub proof fn lemma_digits_prefix(s: Seq<u8>, j: int)
    requires
        all_digits(s),
        0 <= j <= s.len(),
    ensures
        digits_val(s.take(j)) <= digits_val(s),
    decreases s.len() - j,
{
    if j == s.len() {
        assert(s.take(j) =~= s);
    } else {
        assert(s.take(j + 1).drop_last() =~= s.take(j));
        assert(s.take(j + 1).last() == s[j]);
        assert(all_digits(s.take(j)));
        lemma_digits_nonneg(s.take(j));
        lemma_digits_prefix(s, j + 1);
    }
}

/// Whether the value text opens with a sign byte.
pub open spec fn has_sign(s: Seq<u8>) -> bool {
    s.len() > 0 && (s[0] == MINUS || s[0] == PLUS)
}

/// The value text with any sign byte removed.
pub open spec fn unsigned_part(s: Seq<u8>) -> Seq<u8> {
    if has_sign(s) {
        s.skip(1)
    } else {
        s
    }
}

/// Whether the value text denotes a negative number.
pub open spec fn is_negative(s: Seq<u8>) -> bool {
    s.len() > 0 && s[0] == MINUS
}

/// Whether unsigned value text is well-formed: digits, optionally a dot
/// followed by at least one digit.
pub open spec fn valid_unsigned(u: Seq<u8>) -> bool {
    if !has_byte(u, DOT) {
        u.len() >= 1 && all_digits(u)
    } else {
        let i = first_idx(u, DOT);
        &&& i >= 1
        &&& all_digits(u.take(i))
        &&& u.len() >= i + 2
        &&& all_digits(u.skip(i + 1))
    }
}

/// The tenths written by unsigned value text: ten times the integer part
/// plus the first fraction digit, rounded up by one when the second fraction
/// digit is five or more — the nearest tenth, halves up.
pub open spec fn unsigned_tenths(u: Seq<u8>) -> int {
    if !has_byte(u, DOT) {
        digits_val(u) * 10
    } else {
        let i = first_idx(u, DOT);
        let base = digits_val(u.take(i)) * 10 + digit_val(u[i + 1]);
        if u.len() >= i + 3 && digit_val(u[i + 2]) >= 5 {
            base + 1
        } else {
            base
        }
    }
}

/// Whether value text is accepted: well-formed and within the value range.
pub open spec fn valid_value(s: Seq<u8>) -> bool {
    valid_unsigned(unsigned_part(s)) && unsigned_tenths(unsigned_part(s)) <= VAL_LIMIT as int
}

/// The tenths written by value text, sign included.
pub open spec fn value_tenths(s: Seq<u8>) -> int {
    if is_negative(s) {
        -unsigned_tenths(unsigned_part(s))
    } else {
        unsigned_tenths(unsigned_part(s))
    }
}

/// An accepted value lies within the value range on both sides.
pub proof fn lemma_value_range(s: Seq<u8>)
    requires
        valid_value(s),
    ensures
        -(VAL_LIMIT as int) <= value_tenths(s) <= VAL_LIMIT as int,
{
    let u = unsigned_part(s);
    if !has_byte(u, DOT) {
        lemma_digits_nonneg(u);
    } else {
        let i = first_idx(u, DOT);
        lemma_first_idx_props(u, DOT);
        lemma_digits_nonneg(u.take(i));
        assert(u.skip(i + 1)[0] == u[i + 1]);
    }
}

/// Whether a line is well-formed: it holds the delimiter, the bytes before
/// the first delimiter are valid text, and what follows it is accepted value
/// text.
pub open spec fn valid_line(l: Seq<u8>) -> bool {
    &&& has_byte(l, DELIM)
    &&& is_text(l.take(first_idx(l, DELIM)))
    &&& valid_value(l.skip(first_idx(l, DELIM) + 1))
}

/// The key of a line: the bytes before the first delimiter.
pub open spec fn line_key(l: Seq<u8>) -> Seq<u8> {
    l.take(first_idx(l, DELIM))
}

/// The value of a line, in tenths.
pub open spec fn line_value(l: Seq<u8>) -> int {
    value_tenths(l.skip(first_idx(l, DELIM) + 1))
}

/// A well-formed line holds at least the delimiter and one value byte.
pub proof fn lemma_valid_line_len(l: Seq<u8>)
    requires
        valid_line(l),
    ensures
        l.len() >= 2,
{
    lemma_first_idx_props(l, DELIM);
    let i = first_idx(l, DELIM);
    let v = l.skip(i + 1);
    let u = unsigned_part(v);
    if has_byte(u, DOT) {
        lemma_first_idx_props(u, DOT);
    }
    assert(u.len() >= 1);
}

/// Reads value text as tenths. Returns the written number exactly when the
/// text is accepted, and `MalformedRecord` otherwise.
pub fn parse_value(s: &[u8]) -> (r: Result<i64, Error>)
    ensures
        r is Ok <==> valid_value(s@),
        r matches Ok(v) ==> v == value_tenths(s@) && -VAL_LIMIT <= v <= VAL_LIMIT,
        r matches Err(e) ==> e == Error::MalformedRecord,
{
    let n = s.len();
    let mut start: usize = 0;
    let mut neg = false;
    if n > 0 && (s[0] == MINUS || s[0] == PLUS) {
        neg = s[0] == MINUS;
        start = 1;
    }
    let ghost u = s@.skip(start as int);
    proof {
        assert(u =~= unsigned_part(s@));
        assert(neg == is_negative(s@));
    }

    let mut i: usize = start;
    let mut acc: i64 = 0;
    while i < n && s[i] != DOT
        invariant
            start <= i <= n,
            n == s@.len(),
            start == if has_sign(s@) { 1int } else { 0int },
            u == s@.skip(start as int),
            acc == digits_val(u.take(i - start)),
            0 <= acc <= VAL_LIMIT,
            all_digits(u.take(i - start)),
            forall|k: int| 0 <= k < i - start ==> u[k] != DOT,
            neg == is_negative(s@),
            u == unsigned_part(s@),
        decreases n - i,
    {
        let b = s[i];
        let ghost k = i - start;
        assert(u[k] == s@[i as int]);
        if b < 48 || b > 57 {
            proof {
                if has_byte(u, DOT) {
                    lemma_first_idx_props(u, DOT);
                    let f = first_idx(u, DOT);
                    if f <= k {
                        assert(u[f] != DOT);
                    }
                    assert(!is_digit(u.take(f)[k]));
                } else {
                    assert(!is_digit(u[k]));
                }
            }
            return Err(Error::MalformedRecord);
        }
        let d = (b - 48) as i64;
        let na = acc * 10 + d;
        proof {
            assert(u.take(k + 1).drop_last() =~= u.take(k));
            assert(u.take(k + 1).last() == u[k]);
        }
        if na > VAL_LIMIT {
            proof {
                if has_byte(u, DOT) {
                    lemma_first_idx_props(u, DOT);
                    let f = first_idx(u, DOT);
                    if f <= k {
                        assert(u[f] != DOT);
                    }
                    if valid_unsigned(u) {
                        assert(u.take(f).take(k + 1) =~= u.take(k + 1));
                        lemma_digits_prefix(u.take(f), k + 1);
                        assert(u.skip(f + 1)[0] == u[f + 1]);
                        assert(unsigned_tenths(u) > VAL_LIMIT as int);
                    }
                } else {
                    if valid_unsigned(u) {
                        lemma_digits_prefix(u, k + 1);
                        assert(u.take(u.len() as int) =~= u);
                        assert(unsigned_tenths(u) > VAL_LIMIT as int);
                    }
                }
            }
            return Err(Error::MalformedRecord);
        }
        acc = na;
        i = i + 1;
    }

    let ghost k = i - start;
    if i == start {
        proof {
            if i < n {
                assert(u[0] == s@[i as int]);
                lemma_first_idx_unique(u, DOT, 0);
            } else {
                assert(u.len() == 0);
            }
        }
        return Err(Error::MalformedRecord);
    }

    if i == n {
        proof {
            assert(forall|j: int| 0 <= j < u.len() ==> u[j] != DOT);
            assert(!has_byte(u, DOT));
            assert(u.take(k) =~= u);
        }
        let v = acc * 10;
        if v > VAL_LIMIT {
            return Err(Error::MalformedRecord);
        }
        if neg {
            return Ok(-v);
        } else {
            return Ok(v);
        }
    }

    // A dot stands at position i.
    proof {
        assert(u[k] == s@[i as int]);
        lemma_first_idx_unique(u, DOT, k);
    }
    if i + 1 == n {
        return Err(Error::MalformedRecord);
    }
    let fb = s[i + 1];
    proof {
        assert(u[k + 1] == s@[i + 1]);
        assert(u.skip(k + 1)[0] == u[k + 1]);
    }
    if fb < 48 || fb > 57 {
        return Err(Error::MalformedRecord);
    }
    let f = (fb - 48) as i64;

    let mut j: usize = i + 2;
    while j < n
        invariant
            i + 2 <= j <= n,
            n == s@.len(),
            start == if has_sign(s@) { 1int } else { 0int },
            u == s@.skip(start as int),
            u == unsigned_part(s@),
            neg == is_negative(s@),
            k == i - start,
            0 <= k < u.len(),
            first_idx(u, DOT) == k,
            has_byte(u, DOT),
            forall|m: int| k + 1 <= m < j - start ==> is_digit(u[m]),
        decreases n - j,
    {
        let b = s[j];
        proof {
            assert(u[j - start] == s@[j as int]);
        }
        if b < 48 || b > 57 {
            proof {
                assert(!is_digit(u.skip(k + 1)[j - start - (k + 1)]));
            }
            return Err(Error::MalformedRecord);
        }
        j = j + 1;
    }

    proof {
        assert(forall|m: int| 0 <= m < u.skip(k + 1).len() ==> #[trigger] u.skip(k + 1)[m] == u[k + 1 + m]);
        assert(all_digits(u.skip(k + 1)));
        assert(all_digits(u.take(k)));
        assert(is_digit(u[k + 1]));
        assert(valid_unsigned(u));
        assert(digits_val(u.take(k)) == acc);
        assert(digit_val(u[k + 1]) == f as int);
    }
    let mut v = acc * 10 + f;
    if i + 2 < n {
        let b2 = s[i + 2];
        proof {
            assert(u[k + 2] == s@[i + 2]);
        }
        if b2 >= 53 {
            v = v + 1;
        }
    }
    proof {
        assert(v == unsigned_tenths(u));
    }
    if v > VAL_LIMIT {
        return Err(Error::MalformedRecord);
    }
    proof {
        lemma_value_range(s@);
    }
    if neg {
        Ok(-v)
    } else {
        Ok(v)
    }
}

/// Splits one line at its first delimiter and reads the value. Returns the
/// key bytes and the value in tenths exactly when the line is well-formed,
/// and `MalformedRecord` otherwise.
pub fn parse_record<'a>(line: &'a [u8]) -> (r: Result<(&'a [u8], i64), Error>)
    ensures
        r is Ok <==> valid_line(line@),
        r matches Ok(kv) ==> kv.0@ == line_key(line@) && kv.1 == line_value(line@)
            && -VAL_LIMIT <= kv.1 <= VAL_LIMIT,
        r matches Err(e) ==> e == Error::MalformedRecord,
{
    match crate::bytes::find_byte(line, DELIM) {
        None => Err(Error::MalformedRecord),
        Some(i) => {
            proof {
                lemma_first_idx_props(line@, DELIM);
            }
            let n = line.len();
            let key = &line[0..i];
            let value_text = &line[i + 1..n];
            proof {
                assert(key@ =~= line_key(line@));
                assert(value_text@ =~= line@.skip(i + 1));
            }
            if !is_text_bytes(key) {
                return Err(Error::MalformedRecord);
            }
            match parse_value(value_text) {
                Ok(v) => Ok((key, v)),
                Err(e) => Err(e),
            }
        },
    }
}

} // verus!
