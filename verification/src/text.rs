//! Validity of text: whether a byte string is well-formed UTF-8.
//!
//! A key must be valid text; a line whose key bytes are not is malformed.
//! The shape is checked scalar by scalar: ASCII, or a leading byte followed
//! by the continuation bytes its range demands, with overlong forms, the
//! surrogate range and values past the last scalar excluded.

use vstd::prelude::*;

verus! {

/// Whether `b` is a continuation byte.
pub open spec fn is_cont(b: u8) -> bool {
    128 <= b && b <= 191
}

/// The byte length of a well-formed scalar at the front of `s`, and zero
/// when the front is not one.
pub open spec fn utf8_step(s: Seq<u8>) -> int {
    if s.len() >= 1 && s[0] <= 127 {
        1
    } else if s.len() >= 2 && 194 <= s[0] && s[0] <= 223 && is_cont(s[1]) {
        2
    } else if s.len() >= 3 && s[0] == 224 && 160 <= s[1] && s[1] <= 191 && is_cont(s[2]) {
        3
    } else if s.len() >= 3 && 225 <= s[0] && s[0] <= 236 && is_cont(s[1]) && is_cont(s[2]) {
        3
    } else if s.len() >= 3 && s[0] == 237 && 128 <= s[1] && s[1] <= 159 && is_cont(s[2]) {
        3
    } else if s.len() >= 3 && 238 <= s[0] && s[0] <= 239 && is_cont(s[1]) && is_cont(s[2]) {
        3
    } else if s.len() >= 4 && s[0] == 240 && 144 <= s[1] && s[1] <= 191 && is_cont(s[2]) && is_cont(
        s[3],
    ) {
        4
    } else if s.len() >= 4 && 241 <= s[0] && s[0] <= 243 && is_cont(s[1]) && is_cont(s[2])
        && is_cont(s[3]) {
        4
    } else if s.len() >= 4 && s[0] == 244 && 128 <= s[1] && s[1] <= 143 && is_cont(s[2]) && is_cont(
        s[3],
    ) {
        4
    } else {
        0
    }
}

/// Whether `s` is valid text: a sequence of well-formed scalars.
pub open spec fn is_text(s: Seq<u8>) -> bool
    decreases s.len(),
{
    if s.len() == 0 {
        true
    } else {
        let n = utf8_step(s);
        if n == 0 {
            false
        } else {
            is_text(s.skip(n))
        }
    }
}

/// Whether a byte string is valid text.
pub fn is_text_bytes(s: &[u8]) -> (r: bool)
    ensures
        r <==> is_text(s@),
{
    let n = s.len();
    let mut i: usize = 0;
    proof {
        assert(s@.skip(0) =~= s@);
    }
    while i < n
        invariant
            0 <= i <= n,
            n == s@.len(),
            is_text(s@) <==> is_text(s@.skip(i as int)),
        decreases n - i,
    {
        let ghost t = s@.skip(i as int);
        proof {
            assert(t.len() == n - i);
            assert(t[0] == s@[i as int]);
            if i + 1 < n {
                assert(t[1] == s@[i + 1]);
            }
            if i + 2 < n {
                assert(t[2] == s@[i + 2]);
            }
            if i + 3 < n {
                assert(t[3] == s@[i + 3]);
            }
        }
        let b0 = s[i];
        let mut step: usize = 0;
        if b0 < 128 {
            step = 1;
        } else if b0 < 194 {
            return false;
        } else if b0 < 224 {
            if i + 1 >= n {
                return false;
            }
            let b1 = s[i + 1];
            if !(128 <= b1 && b1 <= 191) {
                return false;
            }
            step = 2;
        } else if b0 < 240 {
            if n - i < 3 {
                return false;
            }
            let b1 = s[i + 1];
            let b2 = s[i + 2];
            let low: u8 = if b0 == 224 {
                160
            } else {
                128
            };
            let high: u8 = if b0 == 237 {
                159
            } else {
                191
            };
            if !(low <= b1 && b1 <= high) {
                return false;
            }
            if !(128 <= b2 && b2 <= 191) {
                return false;
            }
            step = 3;
        } else if b0 < 245 {
            if n - i < 4 {
                return false;
            }
            let b1 = s[i + 1];
            let b2 = s[i + 2];
            let b3 = s[i + 3];
            let low: u8 = if b0 == 240 {
                144
            } else {
                128
            };
            let high: u8 = if b0 == 244 {
                143
            } else {
                191
            };
            if !(low <= b1 && b1 <= high) {
                return false;
            }
            if !(128 <= b2 && b2 <= 191) {
                return false;
            }
            if !(128 <= b3 && b3 <= 191) {
                return false;
            }
            step = 4;
        } else {
            return false;
        }
        proof {
            assert(utf8_step(t) == step as int);
            assert(t.skip(step as int) =~= s@.skip(i + step));
        }
        i = i + step;
    }
    proof {
        assert(s@.skip(n as int) =~= Seq::<u8>::empty());
    }
    true
}

} // verus!
