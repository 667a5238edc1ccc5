//! Byte search, the line model of a buffer, and byte-lexicographic key order.
//!
//! A buffer is a sequence of lines, each closed by the terminator byte; the
//! bytes after the last terminator, if any, belong to no line.

use vstd::prelude::*;

verus! {

/// The line terminator byte (line feed).
pub const TERM: u8 = 10;

/// The byte that separates the key from the value within a line (semicolon).
pub const DELIM: u8 = 59;

/// Whether byte `b` occurs in `s`.
pub open spec fn has_byte(s: Seq<u8>, b: u8) -> bool {
    exists|i: int| 0 <= i < s.len() && s[i] == b
}

/// The index of the first occurrence of `b` in `s`; `s.len()` when absent.
pub open spec fn first_idx(s: Seq<u8>, b: u8) -> int
    decreases s.len(),
{
    if s.len() == 0 {
        0
    } else if s[0] == b {
        0
    } else {
        1 + first_idx(s.skip(1), b)
    }
}

/// Where `b` occurs, `first_idx` points at its first occurrence.
pub proof fn lemma_first_idx_props(s: Seq<u8>, b: u8)
    ensures
        0 <= first_idx(s, b) <= s.len(),
        has_byte(s, b) ==> first_idx(s, b) < s.len() && s[first_idx(s, b)] == b,
        forall|j: int| 0 <= j < first_idx(s, b) ==> s[j] != b,
        !has_byte(s, b) ==> first_idx(s, b) == s.len(),
    decreases s.len(),
{
    if s.len() == 0 {
    } else if s[0] == b {
    } else {
        lemma_first_idx_props(s.skip(1), b);
        if has_byte(s, b) {
            let w = choose|i: int| 0 <= i < s.len() && s[i] == b;
            assert(s.skip(1)[w - 1] == b);
        }
        assert(forall|j: int| 0 <= j < first_idx(s, b) ==> s[j] != b) by {
            assert(forall|j: int| 1 <= j < first_idx(s, b) ==> s[j] == s.skip(1)[j - 1]);
        }
        if first_idx(s, b) < s.len() {
            assert(s[first_idx(s, b)] == s.skip(1)[first_idx(s.skip(1), b)]);
        }
    }
}

/// A position that holds `b`, with no earlier occurrence, is `first_idx`.
pub proof fn lemma_first_idx_unique(s: Seq<u8>, b: u8, i: int)
    requires
        0 <= i < s.len(),
        s[i] == b,
        forall|j: int| 0 <= j < i ==> s[j] != b,
    ensures
        has_byte(s, b),
        first_idx(s, b) == i,
{
    lemma_first_idx_props(s, b);
    let f = first_idx(s, b);
    if f < i {
        assert(s[f] != b);
    }
    if i < f {
        assert(s[i] != b);
    }
}

/// Whether `s` is empty or closed by a terminator: a clean cut point.
pub open spec fn ends_terminated(s: Seq<u8>) -> bool {
    s.len() == 0 || s[s.len() - 1] == TERM
}

/// The lines of `s`: the maximal terminator-free stretches before each
/// terminator, in order, terminators excluded. Bytes after the last
/// terminator belong to no line.
pub open spec fn lines_of(s: Seq<u8>) -> Seq<Seq<u8>>
    decreases s.len(),
    via lines_of_decreases
{
    if !has_byte(s, TERM) {
        Seq::empty()
    } else {
        seq![s.take(first_idx(s, TERM))] + lines_of(s.skip(first_idx(s, TERM) + 1))
    }
}

#[via_fn]
proof fn lines_of_decreases(s: Seq<u8>) {
    lemma_first_idx_props(s, TERM);
}

/// A buffer without a terminator holds no line.
pub proof fn lemma_lines_empty(s: Seq<u8>)
    requires
        !has_byte(s, TERM),
    ensures
        lines_of(s) == Seq::<Seq<u8>>::empty(),
{
}

/// Cutting a buffer just after a terminator splits its lines cleanly: the
/// lines of the whole are the lines of the left part followed by the lines
/// of the right part.
pub proof fn lemma_lines_append(a: Seq<u8>, b: Seq<u8>)
    requires
        ends_terminated(a),
    ensures
        lines_of(a + b) == lines_of(a) + lines_of(b),
    decreases a.len(),
{
    if a.len() == 0 {
        assert(a + b =~= b);
        assert(lines_of(a + b) =~= lines_of(a) + lines_of(b));
    } else {
        assert(a[a.len() - 1] == TERM);
        assert(has_byte(a, TERM));
        lemma_first_idx_props(a, TERM);
        let i = first_idx(a, TERM);
        assert((a + b)[i] == TERM);
        assert(forall|j: int| 0 <= j < i ==> (a + b)[j] == a[j]);
        lemma_first_idx_unique(a + b, TERM, i);
        assert((a + b).take(i) =~= a.take(i));
        assert((a + b).skip(i + 1) =~= a.skip(i + 1) + b);
        let rest = a.skip(i + 1);
        assert(ends_terminated(rest)) by {
            if rest.len() > 0 {
                assert(rest[rest.len() - 1] == a[a.len() - 1]);
            }
        }
        lemma_lines_append(rest, b);
        assert(lines_of(a + b) =~= lines_of(a) + lines_of(b));
    }
}

/// A terminator-free stretch closed by one terminator is a single line.
pub proof fn lemma_lines_single(l: Seq<u8>)
    requires
        !has_byte(l, TERM),
    ensures
        lines_of(l + seq![TERM]) == seq![l],
{
    let s = l + seq![TERM];
    assert(s[l.len() as int] == TERM);
    assert(forall|j: int| 0 <= j < l.len() ==> s[j] == l[j]);
    lemma_first_idx_unique(s, TERM, l.len() as int);
    assert(s.take(l.len() as int) =~= l);
    assert(s.skip(l.len() as int + 1) =~= Seq::<u8>::empty());
    assert(lines_of(s) == seq![s.take(first_idx(s, TERM))] + lines_of(
        s.skip(first_idx(s, TERM) + 1),
    ));
    assert(!has_byte(Seq::<u8>::empty(), TERM));
    assert(lines_of(Seq::<u8>::empty()) == Seq::<Seq<u8>>::empty());
    assert(lines_of(s) =~= seq![l]);
}

/// Strict byte-lexicographic order on keys: the empty key precedes every
/// other, and otherwise the first differing byte decides.
pub open spec fn lex_lt(a: Seq<u8>, b: Seq<u8>) -> bool
    decreases a.len(),
{
    if b.len() == 0 {
        false
    } else if a.len() == 0 {
        true
    } else if a[0] < b[0] {
        true
    } else if a[0] > b[0] {
        false
    } else {
        lex_lt(a.skip(1), b.skip(1))
    }
}

/// Of two keys, exactly one of: `a` before `b`, equal, `b` before `a`.
pub proof fn lemma_lex_trichotomy(a: Seq<u8>, b: Seq<u8>)
    ensures
        lex_lt(a, b) || lex_lt(b, a) || a == b,
        lex_lt(a, b) ==> !lex_lt(b, a) && a != b,
        lex_lt(b, a) ==> !lex_lt(a, b) && a != b,
    decreases a.len(),
{
    if a.len() == 0 || b.len() == 0 {
        if a.len() == b.len() {
            assert(a =~= b);
        }
    } else if a[0] == b[0] {
        lemma_lex_trichotomy(a.skip(1), b.skip(1));
        if a.skip(1) == b.skip(1) {
            assert(forall|j: int| 1 <= j < a.len() ==> a[j] == a.skip(1)[j - 1]);
            assert(forall|j: int| 1 <= j < b.len() ==> b[j] == b.skip(1)[j - 1]);
            assert(a =~= b);
        }
        if a == b {
            assert(a.skip(1) =~= b.skip(1));
        }
    }
}

/// Byte-lexicographic order is transitive.
pub proof fn lemma_lex_transitive(a: Seq<u8>, b: Seq<u8>, c: Seq<u8>)
    requires
        lex_lt(a, b),
        lex_lt(b, c),
    ensures
        lex_lt(a, c),
    decreases a.len(),
{
    if a.len() == 0 {
    } else if a[0] == b[0] && b[0] == c[0] {
        lemma_lex_transitive(a.skip(1), b.skip(1), c.skip(1));
    }
}

/// Keys that agree on a prefix are ordered by what follows it: a shorter key
/// precedes, and otherwise the byte after the prefix decides.
pub proof fn lemma_lex_from_prefix(a: Seq<u8>, b: Seq<u8>, i: int)
    requires
        0 <= i <= a.len(),
        i <= b.len(),
        forall|j: int| 0 <= j < i ==> a[j] == b[j],
        (i == a.len() && i < b.len()) || (i < a.len() && i < b.len() && a[i] < b[i]),
    ensures
        lex_lt(a, b),
    decreases i,
{
    if i == 0 {
    } else {
        lemma_lex_from_prefix(a.skip(1), b.skip(1), i - 1);
    }
}

/// Whether key `a` comes strictly before key `b` in byte-lexicographic
/// order.
pub fn key_lt(a: &[u8], b: &[u8]) -> (r: bool)
    ensures
        r <==> lex_lt(a@, b@),
{
    let la = a.len();
    let lb = b.len();
    let mut i: usize = 0;
    while i < la && i < lb
        invariant
            0 <= i <= la,
            i <= lb,
            la == a@.len(),
            lb == b@.len(),
            forall|j: int| 0 <= j < i ==> a@[j] == b@[j],
        decreases la - i,
    {
        if a[i] < b[i] {
            proof {
                lemma_lex_from_prefix(a@, b@, i as int);
            }
            return true;
        }
        if a[i] > b[i] {
            proof {
                lemma_lex_from_prefix(b@, a@, i as int);
                lemma_lex_trichotomy(a@, b@);
            }
            return false;
        }
        i = i + 1;
    }
    if la < lb {
        proof {
            lemma_lex_from_prefix(a@, b@, la as int);
        }
        true
    } else if lb < la {
        proof {
            lemma_lex_from_prefix(b@, a@, lb as int);
            lemma_lex_trichotomy(a@, b@);
        }
        false
    } else {
        proof {
            assert(a@ =~= b@);
            lemma_lex_trichotomy(a@, b@);
        }
        false
    }
}

/// Whether two byte strings hold the same bytes.
pub fn bytes_eq(a: &[u8], b: &[u8]) -> (r: bool)
    ensures
        r <==> a@ == b@,
{
    if a.len() != b.len() {
        return false;
    }
    let n = a.len();
    let mut i: usize = 0;
    while i < n
        invariant
            0 <= i <= n,
            n == a@.len(),
            n == b@.len(),
            forall|j: int| 0 <= j < i ==> a@[j] == b@[j],
        decreases n - i,
    {
        if a[i] != b[i] {
            return false;
        }
        i = i + 1;
    }
    proof {
        assert(a@ =~= b@);
    }
    true
}

/// Relies on memchr::memchr: returns the index of the first occurrence of
/// `needle` in `haystack`, or `None` when it does not occur.
pub assume_specification [ memchr::memchr ] (needle: u8, haystack: &[u8]) -> (r: Option<usize>)
    ensures
        match r {
            Some(i) => i < haystack@.len() && haystack@[i as int] == needle && forall|j: int|
                0 <= j < i ==> haystack@[j] != needle,
            None => forall|j: int| 0 <= j < haystack@.len() ==> haystack@[j] != needle,
        },
;

/// Finds the first occurrence of `needle` in `haystack`, tied to the
/// `first_idx` model.
pub fn find_byte(haystack: &[u8], needle: u8) -> (r: Option<usize>)
    ensures
        match r {
            Some(i) => has_byte(haystack@, needle) && i == first_idx(haystack@, needle),
            None => !has_byte(haystack@, needle),
        },
{
    let r = memchr::memchr(needle, haystack);
    proof {
        match r {
            Some(i) => {
                lemma_first_idx_unique(haystack@, needle, i as int);
            },
            None => {},
        }
    }
    r
}

} // verus!
