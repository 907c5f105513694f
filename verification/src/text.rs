//! Character-level text utilities.
//!
//! Everything downstream (the scope rule language, the class token rewriter)
//! is specified over `Seq<char>`. This module defines the splitting, joining
//! and scanning functions those specifications use, together with verified
//! executable counterparts.

use vstd::prelude::*;

verus! {

// ---------------------------------------------------------------------------
// Specification: occurrence, counting, splitting and joining
// ---------------------------------------------------------------------------

/// True when `d` occurs somewhere in `s`.
pub open spec fn occurs(s: Seq<char>, d: char) -> bool {
    exists|i: int| 0 <= i < s.len() && s[i] == d
}

/// The number of occurrences of `d` in `s`.
pub open spec fn count_char(s: Seq<char>, d: char) -> int
    decreases s.len(),
{
    if s.len() == 0 {
        0
    } else {
        (if s[0] == d {
            1int
        } else {
            0int
        }) + count_char(s.subrange(1, s.len() as int), d)
    }
}

/// `s` split at every occurrence of `d`; empty pieces are kept, so the result
/// always has one more element than `s` has occurrences of `d`.
pub open spec fn split_on(s: Seq<char>, d: char) -> Seq<Seq<char>>
    decreases s.len(),
{
    if s.len() == 0 {
        seq![s]
    } else if s[0] == d {
        seq![Seq::<char>::empty()] + split_on(s.subrange(1, s.len() as int), d)
    } else {
        let r = split_on(s.subrange(1, s.len() as int), d);
        seq![seq![s[0]] + r[0]] + r.subrange(1, r.len() as int)
    }
}

/// The pieces of `parts` concatenated with `d` between consecutive pieces.
pub open spec fn join_with(parts: Seq<Seq<char>>, d: char) -> Seq<char>
    decreases parts.len(),
{
    if parts.len() == 0 {
        Seq::empty()
    } else if parts.len() == 1 {
        parts[0]
    } else {
        parts[0] + seq![d] + join_with(parts.subrange(1, parts.len() as int), d)
    }
}

/// Index just past the last occurrence of `d` in `s` (0 when `d` is absent).
pub open spec fn after_last(s: Seq<char>, d: char) -> int
    decreases s.len(),
{
    if s.len() == 0 {
        0
    } else if s.last() == d {
        s.len() as int
    } else {
        after_last(s.drop_last(), d)
    }
}

/// The number of copies of `d` at the start of `s`.
pub open spec fn leading_count(s: Seq<char>, d: char) -> int
    decreases s.len(),
{
    if s.len() == 0 {
        0
    } else if s[0] != d {
        0
    } else {
        1 + leading_count(s.subrange(1, s.len() as int), d)
    }
}

/// The number of copies of `d` at the end of `s`.
pub open spec fn trailing_count(s: Seq<char>, d: char) -> int
    decreases s.len(),
{
    if s.len() == 0 {
        0
    } else if s.last() != d {
        0
    } else {
        1 + trailing_count(s.drop_last(), d)
    }
}

/// `p` occurs as a contiguous subsequence of `s`.
pub open spec fn contains_seq(s: Seq<char>, p: Seq<char>) -> bool {
    exists|i: int|
        0 <= i && i + p.len() <= s.len() && (#[trigger] s.subrange(i, i + p.len() as int)) == p
}

// ---------------------------------------------------------------------------
// Lemmas about the splitting and scanning functions
// ---------------------------------------------------------------------------

pub proof fn lemma_split_on_len(s: Seq<char>, d: char)
    ensures
        split_on(s, d).len() == count_char(s, d) + 1,
    decreases s.len(),
{
    if s.len() == 0 {
    } else {
        lemma_split_on_len(s.subrange(1, s.len() as int), d);
    }
}

/// The bounds and defining properties of `after_last`.
pub proof fn lemma_after_last(s: Seq<char>, d: char)
    ensures
        0 <= after_last(s, d) <= s.len(),
        after_last(s, d) > 0 ==> s[after_last(s, d) - 1] == d,
        forall|j: int| after_last(s, d) <= j < s.len() ==> s[j] != d,
    decreases s.len(),
{
    if s.len() == 0 {
    } else if s.last() == d {
    } else {
        lemma_after_last(s.drop_last(), d);
        assert forall|j: int| after_last(s, d) <= j < s.len() implies s[j] != d by {
            if j < s.len() - 1 {
                assert(s.drop_last()[j] != d);
            }
        }
    }
}

/// `after_last` is determined by its characteristic properties.
pub proof fn lemma_after_last_at(s: Seq<char>, d: char, i: int)
    requires
        0 <= i <= s.len(),
        i > 0 ==> s[i - 1] == d,
        forall|j: int| i <= j < s.len() ==> s[j] != d,
    ensures
        after_last(s, d) == i,
    decreases s.len(),
{
    if s.len() == 0 {
    } else if s.last() == d {
        assert(i == s.len());
    } else {
        assert(i < s.len());
        lemma_after_last_at(s.drop_last(), d, i);
    }
}

/// The bounds and defining properties of `leading_count`.
pub proof fn lemma_leading_count(s: Seq<char>, d: char)
    ensures
        0 <= leading_count(s, d) <= s.len(),
        forall|j: int| 0 <= j < leading_count(s, d) ==> s[j] == d,
        leading_count(s, d) < s.len() ==> s[leading_count(s, d)] != d,
    decreases s.len(),
{
    if s.len() == 0 {
    } else if s[0] != d {
    } else {
        let t = s.subrange(1, s.len() as int);
        lemma_leading_count(t, d);
        assert forall|j: int| 0 <= j < leading_count(s, d) implies s[j] == d by {
            if j > 0 {
                assert(t[j - 1] == d);
            }
        }
    }
}

/// `leading_count` is determined by its characteristic properties.
pub proof fn lemma_leading_count_at(s: Seq<char>, d: char, i: int)
    requires
        0 <= i <= s.len(),
        forall|j: int| 0 <= j < i ==> s[j] == d,
        i < s.len() ==> s[i] != d,
    ensures
        leading_count(s, d) == i,
    decreases s.len(),
{
    if s.len() == 0 {
    } else if s[0] != d {
    } else {
        let t = s.subrange(1, s.len() as int);
        assert(i >= 1);
        assert forall|j: int| 0 <= j < i - 1 implies t[j] == d by {
            assert(s[j + 1] == d);
        }
        lemma_leading_count_at(t, d, i - 1);
    }
}

/// The bounds and defining properties of `trailing_count`.
pub proof fn lemma_trailing_count(s: Seq<char>, d: char)
    ensures
        0 <= trailing_count(s, d) <= s.len(),
        forall|j: int| s.len() - trailing_count(s, d) <= j < s.len() ==> s[j] == d,
        trailing_count(s, d) < s.len() ==> s[s.len() - trailing_count(s, d) - 1] != d,
    decreases s.len(),
{
    if s.len() == 0 {
    } else if s.last() != d {
    } else {
        lemma_trailing_count(s.drop_last(), d);
        assert forall|j: int| s.len() - trailing_count(s, d) <= j < s.len() implies s[j] == d by {
            if j < s.len() - 1 {
                assert(s.drop_last()[j] == d);
            }
        }
    }
}

/// `trailing_count` is determined by its characteristic properties.
pub proof fn lemma_trailing_count_at(s: Seq<char>, d: char, i: int)
    requires
        0 <= i <= s.len(),
        forall|j: int| s.len() - i <= j < s.len() ==> s[j] == d,
        i < s.len() ==> s[s.len() - i - 1] != d,
    ensures
        trailing_count(s, d) == i,
    decreases s.len(),
{
    if s.len() == 0 {
    } else if s.last() != d {
        assert(i == 0);
    } else {
        assert(i >= 1);
        let t = s.drop_last();
        assert forall|j: int| t.len() - (i - 1) <= j < t.len() implies t[j] == d by {
            assert(s[j] == d);
        }
        lemma_trailing_count_at(t, d, i - 1);
    }
}

/// Splitting a string that starts with a delimiter-free prefix: if `d` does
/// not occur before position `i`, the split either is the whole string (when
/// `i` reaches the end) or starts with `s[..i]` followed by the split of the
/// remainder (when `s[i] == d`).
pub proof fn lemma_split_on_step(s: Seq<char>, d: char, i: int)
    requires
        0 <= i <= s.len(),
        forall|j: int| 0 <= j < i ==> s[j] != d,
        i < s.len() ==> s[i] == d,
    ensures
        i == s.len() ==> split_on(s, d) =~= seq![s],
        i < s.len() ==> split_on(s, d) =~= seq![s.subrange(0, i)] + split_on(
            s.subrange(i + 1, s.len() as int),
            d,
        ),
    decreases s.len(),
{
    lemma_split_on_len(s, d);
    if s.len() == 0 {
    } else if s[0] == d {
        assert(i == 0);
        assert(s.subrange(1, s.len() as int) =~= s.subrange(i + 1, s.len() as int));
        assert(s.subrange(0, 0) =~= Seq::<char>::empty());
    } else {
        let t = s.subrange(1, s.len() as int);
        assert(i >= 1);
        assert forall|j: int| 0 <= j < i - 1 implies t[j] != d by {
            assert(s[j + 1] != d);
        }
        lemma_split_on_step(t, d, i - 1);
        lemma_split_on_len(t, d);
        let r = split_on(t, d);
        if i == s.len() {
            assert(split_on(t, d) =~= seq![t]);
            assert(seq![s[0]] + t =~= s);
        } else {
            assert(t[i - 1] == d);
            let rest = t.subrange(i, t.len() as int);
            assert(rest =~= s.subrange(i + 1, s.len() as int));
            assert(r =~= seq![t.subrange(0, i - 1)] + split_on(rest, d));
            assert(seq![s[0]] + t.subrange(0, i - 1) =~= s.subrange(0, i));
            assert(split_on(s, d) =~= seq![seq![s[0]] + r[0]] + r.subrange(1, r.len() as int));
            assert(r.subrange(1, r.len() as int) =~= split_on(rest, d));
        }
    }
}

/// No piece of a split contains the delimiter.
pub proof fn lemma_split_on_free(s: Seq<char>, d: char)
    ensures
        forall|k: int, j: int|
            0 <= k < split_on(s, d).len() && 0 <= j < split_on(s, d)[k].len() ==> split_on(
                s,
                d,
            )[k][j] != d,
    decreases s.len(),
{
    if s.len() == 0 {
    } else if s[0] == d {
        let t = s.subrange(1, s.len() as int);
        lemma_split_on_free(t, d);
        let r = split_on(t, d);
        let w = split_on(s, d);
        assert(w == seq![Seq::<char>::empty()] + r);
        assert forall|k: int, j: int|
            0 <= k < w.len() && 0 <= j < w[k].len() implies w[k][j] != d by {
            assert(k >= 1);
            assert(w[k] == r[k - 1]);
        }
    } else {
        let t = s.subrange(1, s.len() as int);
        lemma_split_on_free(t, d);
        lemma_split_on_len(t, d);
        lemma_count_char_nonneg(t, d);
        let r = split_on(t, d);
        let w = split_on(s, d);
        assert(r.len() >= 1);
        assert(w == seq![seq![s[0]] + r[0]] + r.subrange(1, r.len() as int));
        assert forall|k: int, j: int|
            0 <= k < w.len() && 0 <= j < w[k].len() implies w[k][j] != d by {
            if k == 0 {
                assert(w[0] == seq![s[0]] + r[0]);
                if j > 0 {
                    assert(w[0][j] == r[0][j - 1]);
                    assert(r[0][j - 1] != d);
                } else {
                    assert(w[0][0] == s[0]);
                }
            } else {
                assert(w[k] == r.subrange(1, r.len() as int)[k - 1]);
                assert(w[k] == r[k]);
            }
        }
    }
}

/// Occurrence counts are never negative.
pub proof fn lemma_count_char_nonneg(s: Seq<char>, d: char)
    ensures
        count_char(s, d) >= 0,
    decreases s.len(),
{
    if s.len() == 0 {
    } else {
        lemma_count_char_nonneg(s.subrange(1, s.len() as int), d);
    }
}

/// Joining the pieces of a split restores the original string.
pub proof fn lemma_join_split(s: Seq<char>, d: char)
    ensures
        join_with(split_on(s, d), d) =~= s,
    decreases s.len(),
{
    if s.len() == 0 {
    } else if s[0] == d {
        let t = s.subrange(1, s.len() as int);
        lemma_join_split(t, d);
        lemma_split_on_len(t, d);
        lemma_count_char_nonneg(t, d);
        let r = split_on(t, d);
        let w = split_on(s, d);
        assert(r.len() >= 1);
        assert(w == seq![Seq::<char>::empty()] + r);
        assert(w.len() >= 2);
        assert(w[0] == Seq::<char>::empty());
        assert(w.subrange(1, w.len() as int) =~= r);
        assert(join_with(w, d) == w[0] + seq![d] + join_with(r, d));
        assert(join_with(w, d) =~= seq![d] + t);
        assert(s =~= seq![d] + t);
    } else {
        let t = s.subrange(1, s.len() as int);
        lemma_join_split(t, d);
        lemma_split_on_len(t, d);
        lemma_count_char_nonneg(t, d);
        let r = split_on(t, d);
        let w = split_on(s, d);
        assert(r.len() >= 1);
        assert(w == seq![seq![s[0]] + r[0]] + r.subrange(1, r.len() as int));
        assert(w[0] == seq![s[0]] + r[0]);
        if r.len() == 1 {
            assert(w.len() == 1);
            assert(join_with(w, d) == w[0]);
            assert(join_with(r, d) == r[0]);
            assert(t =~= r[0]);
            assert(s =~= seq![s[0]] + t);
        } else {
            assert(w.len() == r.len());
            assert(w.subrange(1, w.len() as int) =~= r.subrange(1, r.len() as int));
            assert(join_with(w, d) == w[0] + seq![d] + join_with(
                w.subrange(1, w.len() as int),
                d,
            ));
            assert(join_with(r, d) == r[0] + seq![d] + join_with(
                r.subrange(1, r.len() as int),
                d,
            ));
            assert(t =~= r[0] + seq![d] + join_with(r.subrange(1, r.len() as int), d));
            assert(join_with(w, d) =~= seq![s[0]] + t);
            assert(s =~= seq![s[0]] + t);
        }
    }
}

/// Splitting a join of delimiter-free pieces restores the pieces.
pub proof fn lemma_split_join(parts: Seq<Seq<char>>, d: char)
    requires
        parts.len() >= 1,
        forall|k: int, j: int|
            0 <= k < parts.len() && 0 <= j < parts[k].len() ==> parts[k][j] != d,
    ensures
        split_on(join_with(parts, d), d) =~= parts,
    decreases parts.len(),
{
    if parts.len() == 1 {
        let p = parts[0];
        lemma_split_on_step(p, d, p.len() as int);
        assert(split_on(p, d) =~= seq![p]);
        assert(split_on(join_with(parts, d), d) =~= seq![parts[0]]);
        assert(seq![parts[0]] =~= parts);
    } else {
        let rest = parts.subrange(1, parts.len() as int);
        lemma_split_join(rest, d);
        let p = parts[0];
        let s = join_with(parts, d);
        assert(s =~= p + seq![d] + join_with(rest, d));
        assert(forall|j: int| 0 <= j < p.len() ==> s[j] != d);
        assert(s[p.len() as int] == d);
        lemma_split_on_step(s, d, p.len() as int);
        assert(s.subrange(0, p.len() as int) =~= p);
        assert(s.subrange(p.len() as int + 1, s.len() as int) =~= join_with(rest, d));
    }
}

// ---------------------------------------------------------------------------
// Executable helpers
// ---------------------------------------------------------------------------

/// The characters of `s` as a vector, for random access.
pub fn chars_of(s: &str) -> (v: Vec<char>)
    ensures
        v@ == s@,
{
    let n = s.unicode_len();
    let mut v: Vec<char> = Vec::new();
    let mut i: usize = 0;
    while i < n
        invariant
            n == s@.len(),
            0 <= i <= n,
            v@ =~= s@.subrange(0, i as int),
        decreases n - i,
    {
        v.push(s.get_char(i));
        i = i + 1;
    }
    assert(v@ =~= s@);
    v
}

/// Character-wise equality of two strings.
pub fn str_equal(a: &str, b: &str) -> (r: bool)
    ensures
        r == (a@ == b@),
{
    let av = chars_of(a);
    let bv = chars_of(b);
    chars_equal(&av, &bv)
}

/// Character-wise equality of two character vectors.
pub fn chars_equal(a: &Vec<char>, b: &Vec<char>) -> (r: bool)
    ensures
        r == (a@ == b@),
{
    if a.len() != b.len() {
        return false;
    }
    let n = a.len();
    let mut i: usize = 0;
    while i < n
        invariant
            n == a@.len() == b@.len(),
            0 <= i <= n,
            forall|j: int| 0 <= j < i ==> a@[j] == b@[j],
        decreases n - i,
    {
        if a[i] != b[i] {
            return false;
        }
        i = i + 1;
    }
    assert(a@ =~= b@);
    true
}

/// Whether `p` is a prefix of `s`.
pub fn chars_start_with(s: &Vec<char>, p: &Vec<char>) -> (r: bool)
    ensures
        r == p@.is_prefix_of(s@),
{
    if p.len() > s.len() {
        return false;
    }
    let n = p.len();
    let mut i: usize = 0;
    while i < n
        invariant
            n == p@.len() <= s@.len(),
            0 <= i <= n,
            forall|j: int| 0 <= j < i ==> s@[j] == p@[j],
        decreases n - i,
    {
        if s[i] != p[i] {
            assert(!p@.is_prefix_of(s@)) by {
                assert(s@.subrange(0, p@.len() as int)[i as int] != p@[i as int]);
            }
            return false;
        }
        i = i + 1;
    }
    assert(s@.subrange(0, p@.len() as int) =~= p@);
    true
}

/// Whether `p` is a suffix of `s`.
pub fn chars_end_with(s: &Vec<char>, p: &Vec<char>) -> (r: bool)
    ensures
        r == p@.is_suffix_of(s@),
{
    if p.len() > s.len() {
        return false;
    }
    let n = p.len();
    let slen = s.len();
    let off = slen - n;
    let mut i: usize = 0;
    while i < n
        invariant
            n == p@.len(),
            slen == s@.len(),
            n <= slen,
            off == slen - n,
            0 <= i <= n,
            forall|j: int| 0 <= j < i ==> s@[off + j] == p@[j],
        decreases n - i,
    {
        if s[off + i] != p[i] {
            assert(!p@.is_suffix_of(s@)) by {
                assert(s@.subrange(s@.len() - p@.len(), s@.len() as int)[i as int] != p@[i as int]);
            }
            return false;
        }
        i = i + 1;
    }
    assert(s@.subrange(s@.len() - p@.len(), s@.len() as int) =~= p@);
    true
}

/// Whether `p` occurs contiguously anywhere in `s`.
pub fn chars_contain(s: &Vec<char>, p: &Vec<char>) -> (r: bool)
    ensures
        r == contains_seq(s@, p@),
{
    if p.len() > s.len() {
        assert(!contains_seq(s@, p@));
        return false;
    }
    if p.len() == 0 {
        proof {
            let k: int = 0;
            assert(s@.subrange(k, k + p@.len() as int) =~= p@);
            assert(0 <= k && k + p@.len() <= s@.len() && (s@.subrange(k, k + p@.len() as int))
                == p@);
        }
        return true;
    }
    let slen = s.len();
    let last = slen - p.len();
    let mut i: usize = 0;
    while i <= last
        invariant
            slen == s@.len(),
            1 <= p@.len() <= s@.len(),
            last == s@.len() - p@.len(),
            0 <= i <= last + 1,
            forall|k: int| 0 <= k < i ==> #[trigger] s@.subrange(k, k + p@.len() as int) != p@,
        decreases last + 1 - i,
    {
        if chars_match_at(s, p, i) {
            proof {
                let k = i as int;
                assert(0 <= k && k + p@.len() <= s@.len() && s@.subrange(k, k + p@.len() as int)
                    == p@);
                assert(contains_seq(s@, p@)) by {
                    assert(0 <= k && k + p@.len() <= s@.len() && (#[trigger] s@.subrange(
                        k,
                        k + p@.len() as int,
                    )) == p@);
                }
            }
            return true;
        }
        i = i + 1;
    }
    assert forall|k: int| 0 <= k && k + p@.len() <= s@.len() implies #[trigger] s@.subrange(
        k,
        k + p@.len() as int,
    ) != p@ by {
        assert(k < i);
    }
    assert(!contains_seq(s@, p@));
    false
}

/// Whether `p` occurs in `s` starting at position `at`.
fn chars_match_at(s: &Vec<char>, p: &Vec<char>, at: usize) -> (r: bool)
    requires
        at + p@.len() <= s@.len(),
    ensures
        r == (s@.subrange(at as int, at + p@.len() as int) == p@),
{
    let n = p.len();
    let slen = s.len();
    let mut i: usize = 0;
    while i < n
        invariant
            n == p@.len(),
            slen == s@.len(),
            at + n <= slen,
            0 <= i <= n,
            forall|j: int| 0 <= j < i ==> s@[at + j] == p@[j],
        decreases n - i,
    {
        if s[at + i] != p[i] {
            assert(s@.subrange(at as int, at + p@.len() as int)[i as int] != p@[i as int]);
            return false;
        }
        i = i + 1;
    }
    assert(s@.subrange(at as int, at + p@.len() as int) =~= p@);
    true
}

} // verus!
