//! The class token rewriter.
//!
//! A class list such as `"sm:hover:bg-red-500 text-white"` is split on
//! spaces; in each fragment the segment after the last `:` is the candidate
//! class name, the segments before it are modifiers and are kept verbatim.
//! When the candidate is a known class name, the configured prefix is
//! inserted in front of it; otherwise the fragment is left unchanged.

use crate::text::after_last;
use crate::text::chars_of;
use crate::text::join_with;
use crate::text::lemma_after_last;
use crate::text::lemma_after_last_at;
use crate::text::lemma_count_char_nonneg;
use crate::text::lemma_split_join;
use crate::text::lemma_split_on_free;
use crate::text::lemma_split_on_len;
use crate::text::lemma_split_on_step;
use crate::text::split_on;
use crate::text::str_equal;
use crate::Str;
use vstd::prelude::*;

verus! {

// ---------------------------------------------------------------------------
// Specification
// ---------------------------------------------------------------------------

/// The views of a list of owned strings.
pub open spec fn views_of(names: Seq<Str>) -> Seq<Seq<char>> {
    Seq::new(names.len(), |i: int| names[i]@)
}

/// Whether the known class set contains `c`.
pub open spec fn known_contains(known: Seq<Seq<char>>, c: Seq<char>) -> bool {
    exists|i: int| 0 <= i < known.len() && #[trigger] known[i] == c
}

/// Whether a fragment's candidate class name (the segment after its last
/// `:`) is a known class name.
pub open spec fn frag_matched(f: Seq<char>, known: Seq<Seq<char>>) -> bool {
    f.len() > 0 && known_contains(known, f.subrange(after_last(f, ':'), f.len() as int))
}

/// A fragment with the prefix inserted in front of its candidate class name
/// when the candidate is known, and unchanged otherwise.
pub open spec fn frag_rewritten(f: Seq<char>, known: Seq<Seq<char>>, prefix: Seq<char>) -> Seq<
    char,
> {
    if frag_matched(f, known) {
        let j = after_last(f, ':');
        f.subrange(0, j) + prefix + f.subrange(j, f.len() as int)
    } else {
        f
    }
}

/// Every fragment rewritten, in order.
pub open spec fn rewritten_of(
    parts: Seq<Seq<char>>,
    known: Seq<Seq<char>>,
    prefix: Seq<char>,
) -> Seq<Seq<char>>
    decreases parts.len(),
{
    if parts.len() == 0 {
        Seq::empty()
    } else {
        rewritten_of(parts.drop_last(), known, prefix).push(
            frag_rewritten(parts.last(), known, prefix),
        )
    }
}

/// Whether any fragment has a known candidate.
pub open spec fn any_matched_of(parts: Seq<Seq<char>>, known: Seq<Seq<char>>) -> bool {
    exists|i: int| 0 <= i < parts.len() && frag_matched(#[trigger] parts[i], known)
}

/// The whole class list rewritten: split on spaces, rewrite each fragment,
/// join with spaces again. Empty fragments (from consecutive spaces) pass
/// through unchanged, so the spacing of the list is preserved.
pub open spec fn rewrite_spec(s: Seq<char>, known: Seq<Seq<char>>, prefix: Seq<char>) -> Seq<
    char,
> {
    join_with(rewritten_of(split_on(s, ' '), known, prefix), ' ')
}

/// Whether rewriting the class list would touch any fragment.
pub open spec fn any_matched(s: Seq<char>, known: Seq<Seq<char>>) -> bool {
    any_matched_of(split_on(s, ' '), known)
}

// ---------------------------------------------------------------------------
// Lemmas
// ---------------------------------------------------------------------------

/// Rewriting is applied pointwise and keeps the number of fragments.
pub proof fn lemma_rewritten_of_index(
    parts: Seq<Seq<char>>,
    known: Seq<Seq<char>>,
    prefix: Seq<char>,
)
    ensures
        rewritten_of(parts, known, prefix).len() == parts.len(),
        forall|t: int|
            0 <= t < parts.len() ==> rewritten_of(parts, known, prefix)[t] == frag_rewritten(
                #[trigger] parts[t],
                known,
                prefix,
            ),
    decreases parts.len(),
{
    if parts.len() > 0 {
        lemma_rewritten_of_index(parts.drop_last(), known, prefix);
        let rest = rewritten_of(parts.drop_last(), known, prefix);
        assert forall|t: int| 0 <= t < parts.len() implies rewritten_of(parts, known, prefix)[t]
            == frag_rewritten(#[trigger] parts[t], known, prefix) by {
            if t < parts.len() - 1 {
                assert(rewritten_of(parts, known, prefix)[t] == rest[t]);
                assert(parts.drop_last()[t] == parts[t]);
            } else {
                assert(rewritten_of(parts, known, prefix)[t] == frag_rewritten(
                    parts.last(),
                    known,
                    prefix,
                ));
            }
        }
    }
}

/// Appending a fragment to a join appends a separator and the fragment.
pub proof fn lemma_join_with_push(parts: Seq<Seq<char>>, x: Seq<char>, d: char)
    ensures
        parts.len() == 0 ==> join_with(parts.push(x), d) == x,
        parts.len() > 0 ==> join_with(parts.push(x), d) == join_with(parts, d) + seq![d] + x,
    decreases parts.len(),
{
    if parts.len() == 0 {
        assert(join_with(parts.push(x), d) == parts.push(x)[0]);
        assert(parts.push(x)[0] == x);
    } else {
        lemma_join_with_push(parts.subrange(1, parts.len() as int), x, d);
        let w = parts.push(x);
        assert(w.len() >= 2);
        assert(w.subrange(1, w.len() as int) =~= parts.subrange(1, parts.len() as int).push(x));
        assert(join_with(w, d) == w[0] + seq![d] + join_with(w.subrange(1, w.len() as int), d));
        if parts.len() == 1 {
            assert(parts.subrange(1, parts.len() as int).len() == 0);
            assert(join_with(parts, d) == parts[0]);
            assert(w[0] == parts[0]);
        } else {
            assert(join_with(parts, d) == parts[0] + seq![d] + join_with(
                parts.subrange(1, parts.len() as int),
                d,
            ));
            assert(join_with(w, d) =~= join_with(parts, d) + seq![d] + x);
        }
    }
}

/// Law: only the final colon-segment of a fragment is rewritten. For a
/// matched fragment the modifiers before the last `:` and the candidate
/// class name itself are kept verbatim, with the prefix inserted between
/// them.
pub proof fn lemma_rewrite_preserves_modifiers(
    f: Seq<char>,
    known: Seq<Seq<char>>,
    prefix: Seq<char>,
)
    requires
        frag_matched(f, known),
    ensures
        frag_rewritten(f, known, prefix) == f.subrange(0, after_last(f, ':')) + prefix + f.subrange(
            after_last(f, ':'),
            f.len() as int,
        ),
{
}

/// A rewritten fragment never matches again, provided the prefix carries no
/// `:` and no prefixed class name is itself known.
proof fn lemma_frag_rewritten_unmatched(f: Seq<char>, known: Seq<Seq<char>>, prefix: Seq<char>)
    requires
        forall|j: int| 0 <= j < prefix.len() ==> prefix[j] != ':',
        forall|c: Seq<char>|
            known_contains(known, c) ==> !#[trigger] known_contains(known, prefix + c),
    ensures
        !frag_matched(frag_rewritten(f, known, prefix), known),
{
    if frag_matched(f, known) {
        let j = after_last(f, ':');
        lemma_after_last(f, ':');
        let cand = f.subrange(j, f.len() as int);
        let rp = frag_rewritten(f, known, prefix);
        assert(rp == f.subrange(0, j) + prefix + cand);
        assert(rp.len() == j + prefix.len() + (f.len() - j));
        assert forall|t: int| j <= t < rp.len() implies rp[t] != ':' by {
            if t < j + prefix.len() {
                assert(rp[t] == prefix[t - j]);
            } else {
                assert(rp[t] == cand[t - j - prefix.len()]);
                assert(cand[t - j - prefix.len()] == f[t - prefix.len()]);
            }
        }
        if j > 0 {
            assert(rp[j - 1] == f[j - 1]);
        }
        lemma_after_last_at(rp, ':', j);
        assert(rp.subrange(j, rp.len() as int) =~= prefix + cand);
        assert(known_contains(known, cand));
        assert(!known_contains(known, prefix + cand));
    }
}

/// Law: rewriting is idempotent. When the prefix contains no space and no
/// colon, and no already prefixed class name is itself a known class name,
/// a second run over a rewritten class list matches no fragment and leaves
/// the list unchanged.
pub proof fn lemma_rewrite_idempotent(s: Seq<char>, known: Seq<Seq<char>>, prefix: Seq<char>)
    requires
        forall|j: int| 0 <= j < prefix.len() ==> prefix[j] != ' ',
        forall|j: int| 0 <= j < prefix.len() ==> prefix[j] != ':',
        forall|c: Seq<char>|
            known_contains(known, c) ==> !#[trigger] known_contains(known, prefix + c),
    ensures
        !any_matched(rewrite_spec(s, known, prefix), known),
        rewrite_spec(rewrite_spec(s, known, prefix), known, prefix) == rewrite_spec(
            s,
            known,
            prefix,
        ),
{
    let parts = split_on(s, ' ');
    let rparts = rewritten_of(parts, known, prefix);
    let out = rewrite_spec(s, known, prefix);
    lemma_split_on_free(s, ' ');
    lemma_split_on_len(s, ' ');
    lemma_count_char_nonneg(s, ' ');
    lemma_rewritten_of_index(parts, known, prefix);
    assert(rparts.len() >= 1);
    // a rewritten fragment contains no space
    assert forall|k: int, j: int|
        0 <= k < rparts.len() && 0 <= j < rparts[k].len() implies rparts[k][j] != ' ' by {
        let f = parts[k];
        assert(rparts[k] == frag_rewritten(f, known, prefix));
        if frag_matched(f, known) {
            let c = after_last(f, ':');
            lemma_after_last(f, ':');
            if j < c {
                assert(rparts[k][j] == f[j]);
            } else if j < c + prefix.len() {
                assert(rparts[k][j] == prefix[j - c]);
            } else {
                assert(rparts[k][j] == f.subrange(c, f.len() as int)[j - c - prefix.len()]);
            }
        }
    }
    // so the rewritten list splits back into exactly the rewritten fragments
    lemma_split_join(rparts, ' ');
    assert(split_on(out, ' ') =~= rparts);
    // and none of them matches again
    assert forall|t: int| 0 <= t < rparts.len() implies !frag_matched(
        #[trigger] rparts[t],
        known,
    ) by {
        lemma_frag_rewritten_unmatched(parts[t], known, prefix);
    }
    assert(!any_matched(out, known));
    lemma_rewritten_of_index(rparts, known, prefix);
    assert(rewritten_of(rparts, known, prefix) =~= rparts);
    assert(rewrite_spec(out, known, prefix) == join_with(
        rewritten_of(split_on(out, ' '), known, prefix),
        ' ',
    ));
    assert(rewrite_spec(out, known, prefix) == out);
}

// ---------------------------------------------------------------------------
// Executable rewriter
// ---------------------------------------------------------------------------

/// Looks up a candidate class name in the known class set.
fn known_lookup(known: &Vec<Str>, cand: &str) -> (r: bool)
    ensures
        r == known_contains(views_of(known@), cand@),
{
    let n = known.len();
    let mut i: usize = 0;
    while i < n
        invariant
            n == known@.len(),
            0 <= i <= n,
            forall|t: int| 0 <= t < i ==> views_of(known@)[t] != cand@,
        decreases n - i,
    {
        if str_equal(known[i].as_str(), cand) {
            assert(views_of(known@)[i as int] == cand@);
            return true;
        }
        i = i + 1;
    }
    false
}

/// Rewrites the fragment `s[p..q]` and appends the result to `out`; returns
/// whether the fragment's candidate was a known class name.
fn append_fragment(
    prefix: &str,
    known: &Vec<Str>,
    s: &str,
    cv: &Vec<char>,
    p: usize,
    q: usize,
    out: &mut String,
) -> (m: bool)
    requires
        cv@ == s@,
        p <= q <= s@.len(),
    ensures
        ({
            let f = s@.subrange(p as int, q as int);
            &&& final(out)@ == old(out)@ + frag_rewritten(f, views_of(known@), prefix@)
            &&& m == frag_matched(f, views_of(known@))
        }),
{
    let ghost f = s@.subrange(p as int, q as int);
    proof {
        assert(forall|j: int| 0 <= j < f.len() ==> f[j] == s@[p + j]);
    }
    if p == q {
        let whole = s.substring_char(p, q);
        out.append(whole);
        proof {
            assert(out@ =~= old(out)@ + f);
        }
        return false;
    }
    // find the position just past the last ':' of the fragment
    let mut j: usize = q;
    while j > p && cv[j - 1] != ':'
        invariant
            cv@ == s@,
            p <= q <= s@.len(),
            f == s@.subrange(p as int, q as int),
            p <= j <= q,
            forall|t: int| j - p <= t < f.len() ==> f[t] != ':',
        decreases j,
    {
        j = j - 1;
    }
    proof {
        lemma_after_last_at(f, ':', j - p as int);
    }
    let cand = s.substring_char(j, q);
    proof {
        assert(cand@ =~= f.subrange(j - p as int, f.len() as int));
    }
    if known_lookup(known, cand) {
        let head = s.substring_char(p, j);
        proof {
            assert(head@ =~= f.subrange(0, j - p as int));
        }
        out.append(head);
        out.append(prefix);
        out.append(cand);
        proof {
            assert(frag_matched(f, views_of(known@)));
            assert(out@ =~= old(out)@ + frag_rewritten(f, views_of(known@), prefix@));
        }
        true
    } else {
        let whole = s.substring_char(p, q);
        proof {
            assert(whole@ =~= f);
        }
        out.append(whole);
        proof {
            assert(!frag_matched(f, views_of(known@)));
            assert(out@ =~= old(out)@ + f);
        }
        false
    }
}

/// Rewrites a whole class list: every space-separated fragment whose
/// candidate class name is known gets the prefix inserted in front of the
/// candidate; everything else, spacing included, is preserved. Also reports
/// whether any fragment was touched.
pub fn rewrite_class_list(prefix: &str, known: &Vec<Str>, s: &str) -> (r: (String, bool))
    ensures
        r.0@ == rewrite_spec(s@, views_of(known@), prefix@),
        r.1 == any_matched(s@, views_of(known@)),
{
    let cv = chars_of(s);
    let n = cv.len();
    let ghost kv = views_of(known@);
    let mut out = String::new();
    let mut changed = false;
    let ghost mut parts_done: Seq<Seq<char>> = Seq::empty();
    let mut frag_start: usize = 0;
    let mut i: usize = 0;
    proof {
        assert(s@.subrange(0, n as int) =~= s@);
        assert(parts_done + split_on(s@.subrange(0, n as int), ' ') =~= split_on(s@, ' '));
    }
    while i < n
        invariant
            cv@ == s@,
            n == s@.len(),
            kv == views_of(known@),
            0 <= frag_start <= i <= n,
            forall|j: int| frag_start <= j < i ==> s@[j] != ' ',
            split_on(s@, ' ') == parts_done + split_on(s@.subrange(frag_start as int, n as int), ' '),
            parts_done.len() == 0 ==> out@ == Seq::<char>::empty() && frag_start == 0,
            parts_done.len() > 0 ==> out@ == join_with(
                rewritten_of(parts_done, kv, prefix@),
                ' ',
            ) + seq![' '],
            changed == any_matched_of(parts_done, kv),
        decreases n - i,
    {
        if cv[i] == ' ' {
            let ghost f = s@.subrange(frag_start as int, i as int);
            let ghost tail = s@.subrange(frag_start as int, n as int);
            proof {
                assert forall|j: int| 0 <= j < i - frag_start implies tail[j] != ' ' by {
                    assert(s@[frag_start + j] != ' ');
                }
                assert(tail[i - frag_start] == ' ');
                lemma_split_on_step(tail, ' ', i - frag_start as int);
                assert(tail.subrange(0, i - frag_start as int) =~= f);
                assert(tail.subrange(i - frag_start as int + 1, tail.len() as int) =~= s@.subrange(
                    i as int + 1,
                    n as int,
                ));
            }
            let m = append_fragment(prefix, known, s, &cv, frag_start, i, &mut out);
            proof {
                reveal_strlit(" ");
            }
            out.append(" ");
            proof {
                assert(" "@ =~= seq![' ']);
            }
            if m {
                changed = true;
            }
            proof {
                let old_parts = parts_done;
                parts_done = parts_done.push(f);
                assert(parts_done.drop_last() =~= old_parts);
                lemma_join_with_push(rewritten_of(old_parts, kv, prefix@), frag_rewritten(f, kv, prefix@), ' ');
                assert(rewritten_of(parts_done, kv, prefix@) == rewritten_of(
                    old_parts,
                    kv,
                    prefix@,
                ).push(frag_rewritten(f, kv, prefix@)));
                if old_parts.len() == 0 {
                    assert(out@ =~= frag_rewritten(f, kv, prefix@) + seq![' ']);
                    assert(join_with(rewritten_of(parts_done, kv, prefix@), ' ')
                        == frag_rewritten(f, kv, prefix@));
                } else {
                    assert(out@ =~= join_with(rewritten_of(old_parts, kv, prefix@), ' ')
                        + seq![' '] + frag_rewritten(f, kv, prefix@) + seq![' ']);
                    assert(join_with(rewritten_of(parts_done, kv, prefix@), ' ') =~= join_with(
                        rewritten_of(old_parts, kv, prefix@),
                        ' ',
                    ) + seq![' '] + frag_rewritten(f, kv, prefix@));
                }
                assert(out@ =~= join_with(rewritten_of(parts_done, kv, prefix@), ' ') + seq![' ']);
                assert forall|t: int|
                    0 <= t < parts_done.len() implies (frag_matched(#[trigger] parts_done[t], kv)
                    == if t < old_parts.len() {
                        frag_matched(old_parts[t], kv)
                    } else {
                        frag_matched(f, kv)
                    }) by {
                    if t < old_parts.len() {
                        assert(parts_done[t] == old_parts[t]);
                    }
                }
                if m {
                    assert(frag_matched(parts_done[parts_done.len() - 1], kv));
                }
                assert(changed == any_matched_of(parts_done, kv));
            }
            frag_start = i + 1;
        }
        i = i + 1;
    }
    // the fragment after the last space
    let ghost f = s@.subrange(frag_start as int, n as int);
    proof {
        assert forall|j: int| 0 <= j < f.len() implies f[j] != ' ' by {
            assert(s@[frag_start + j] != ' ');
        }
        lemma_split_on_step(f, ' ', f.len() as int);
        assert(split_on(f, ' ') == seq![f]);
    }
    let m = append_fragment(prefix, known, s, &cv, frag_start, n, &mut out);
    if m {
        changed = true;
    }
    proof {
        let old_parts = parts_done;
        parts_done = parts_done.push(f);
        assert(parts_done.drop_last() =~= old_parts);
        assert(old_parts + seq![f] =~= parts_done);
        assert(split_on(s@, ' ') == parts_done);
        lemma_join_with_push(rewritten_of(old_parts, kv, prefix@), frag_rewritten(f, kv, prefix@), ' ');
        assert(rewritten_of(parts_done, kv, prefix@) == rewritten_of(old_parts, kv, prefix@).push(
            frag_rewritten(f, kv, prefix@),
        ));
        if old_parts.len() == 0 {
            assert(out@ =~= frag_rewritten(f, kv, prefix@));
            assert(join_with(rewritten_of(parts_done, kv, prefix@), ' ') == frag_rewritten(
                f,
                kv,
                prefix@,
            ));
        } else {
            assert(out@ =~= join_with(rewritten_of(old_parts, kv, prefix@), ' ') + seq![' ']
                + frag_rewritten(f, kv, prefix@));
            assert(join_with(rewritten_of(parts_done, kv, prefix@), ' ') =~= join_with(
                rewritten_of(old_parts, kv, prefix@),
                ' ',
            ) + seq![' '] + frag_rewritten(f, kv, prefix@));
        }
        assert(out@ =~= rewrite_spec(s@, kv, prefix@));
        assert forall|t: int|
            0 <= t < parts_done.len() implies (frag_matched(#[trigger] parts_done[t], kv) == if t
            < old_parts.len() {
            frag_matched(old_parts[t], kv)
        } else {
            frag_matched(f, kv)
        }) by {
            if t < old_parts.len() {
                assert(parts_done[t] == old_parts[t]);
            }
        }
        if m {
            assert(frag_matched(parts_done[parts_done.len() - 1], kv));
        }
        assert(changed == any_matched_of(parts_done, kv));
    }
    (out, changed)
}

} // verus!
