//! The byte patch engine.
//!
//! A file's rewrite is expressed as a list of edits, each anchored to an
//! inclusive byte range of the original buffer together with the bytes
//! expected there and their replacement. The edits are applied left to
//! right with a running offset that accounts for earlier replacements of a
//! different length. Before an edit is applied, the live bytes at the
//! shifted range must equal the expected bytes exactly; any deviation is a
//! fatal invariant violation for the file and no partial output is produced.

use vstd::prelude::*;
use vstd::slice::slice_to_vec;

verus! {

/// One recorded edit: an inclusive byte range `[start, end]` in the original
/// buffer, the bytes expected there, and their replacement.
#[derive(Debug, Clone, PartialEq)]
pub struct Replacement {
    pub start: usize,
    pub end: usize,
    pub expected: Vec<u8>,
    pub replacement: Vec<u8>,
}

/// The mathematical content of a `Replacement`.
#[verifier::ext_equal]
pub ghost struct EditView {
    pub start: int,
    pub end: int,
    pub expected: Seq<u8>,
    pub replacement: Seq<u8>,
}

impl View for Replacement {
    type V = EditView;

    open spec fn view(&self) -> EditView {
        EditView {
            start: self.start as int,
            end: self.end as int,
            expected: self.expected@,
            replacement: self.replacement@,
        }
    }
}

/// The views of a list of edits.
pub open spec fn edit_views(rps: Seq<Replacement>) -> Seq<EditView> {
    Seq::new(rps.len(), |i: int| rps[i]@)
}

/// The fatal invariant violation of the patch engine: an edit's expected
/// bytes did not match the live buffer at its shifted range.
#[derive(Debug, Clone, Copy, PartialEq, Eq, Structural)]
pub struct PatchError;

// ---------------------------------------------------------------------------
// Specification
// ---------------------------------------------------------------------------

/// One edit applied at an already shifted range: the range must lie inside
/// the buffer and hold exactly the expected bytes; the result replaces those
/// bytes and leaves everything else unchanged.
pub open spec fn apply_one(
    contents: Seq<u8>,
    start: int,
    end: int,
    expected: Seq<u8>,
    replacement: Seq<u8>,
) -> Option<Seq<u8>> {
    if 0 <= start && start <= end + 1 && end < contents.len() && contents.subrange(start, end + 1)
        == expected {
        Some(
            contents.subrange(0, start) + replacement + contents.subrange(
                end + 1,
                contents.len() as int,
            ),
        )
    } else {
        None
    }
}

/// The edits applied left to right with a running offset, starting from
/// `offset`; the offset grows by each edit's length difference (it may
/// shrink below zero when a replacement is shorter). `None` means some edit's
/// expected bytes did not match.
pub open spec fn apply_all_spec(edits: Seq<EditView>, contents: Seq<u8>, offset: int) -> Option<
    Seq<u8>,
>
    decreases edits.len(),
{
    if edits.len() == 0 {
        Some(contents)
    } else {
        let e = edits[0];
        match apply_one(contents, e.start + offset, e.end + offset, e.expected, e.replacement) {
            None => None,
            Some(next) => apply_all_spec(
                edits.subrange(1, edits.len() as int),
                next,
                offset + e.replacement.len() - e.expected.len(),
            ),
        }
    }
}

// ---------------------------------------------------------------------------
// Executable helpers
// ---------------------------------------------------------------------------

/// Whether `cur[at..at + expected.len()]` exists and equals `expected`.
fn range_equals(cur: &Vec<u8>, at: usize, expected: &Vec<u8>) -> (r: bool)
    requires
        at <= cur@.len(),
    ensures
        r == (at + expected@.len() <= cur@.len() && cur@.subrange(
            at as int,
            at + expected@.len() as int,
        ) == expected@),
{
    let n = expected.len();
    let clen = cur.len();
    if n > clen - at {
        return false;
    }
    let mut i: usize = 0;
    while i < n
        invariant
            n == expected@.len(),
            clen == cur@.len(),
            at + n <= clen,
            0 <= i <= n,
            forall|j: int| 0 <= j < i ==> cur@[at + j] == expected@[j],
        decreases n - i,
    {
        if cur[at + i] != expected[i] {
            assert(cur@.subrange(at as int, at + expected@.len() as int)[i as int]
                != expected@[i as int]);
            return false;
        }
        i = i + 1;
    }
    assert(cur@.subrange(at as int, at + expected@.len() as int) =~= expected@);
    true
}

/// The buffer with `cur[at..at + rlen]` replaced by the replacement bytes.
fn splice_bytes(cur: &Vec<u8>, at: usize, rlen: usize, replacement: &Vec<u8>) -> (out: Vec<u8>)
    requires
        at + rlen <= cur@.len(),
    ensures
        out@ == cur@.subrange(0, at as int) + replacement@ + cur@.subrange(
            at + rlen as int,
            cur@.len() as int,
        ),
{
    let mut out: Vec<u8> = Vec::new();
    let mut i: usize = 0;
    while i < at
        invariant
            at + rlen <= cur@.len(),
            0 <= i <= at,
            out@ =~= cur@.subrange(0, i as int),
        decreases at - i,
    {
        out.push(cur[i]);
        i = i + 1;
    }
    let n = replacement.len();
    let mut j: usize = 0;
    while j < n
        invariant
            at + rlen <= cur@.len(),
            n == replacement@.len(),
            0 <= j <= n,
            out@ =~= cur@.subrange(0, at as int) + replacement@.subrange(0, j as int),
        decreases n - j,
    {
        out.push(replacement[j]);
        j = j + 1;
    }
    let clen = cur.len();
    let mut k: usize = at + rlen;
    while k < clen
        invariant
            at + rlen <= clen == cur@.len(),
            at + rlen <= k <= clen,
            out@ =~= cur@.subrange(0, at as int) + replacement@ + cur@.subrange(
                at + rlen as int,
                k as int,
            ),
        decreases clen - k,
    {
        out.push(cur[k]);
        k = k + 1;
    }
    assert(out@ =~= cur@.subrange(0, at as int) + replacement@ + cur@.subrange(
        at + rlen as int,
        cur@.len() as int,
    ));
    out
}

/// The edits lie inside `contents` in ascending, non-overlapping order from
/// position `c` on, and each one's expected bytes are the original bytes of
/// its own range.
pub open spec fn edits_match_from(edits: Seq<EditView>, contents: Seq<u8>, c: int) -> bool
    decreases edits.len(),
{
    if edits.len() == 0 {
        true
    } else {
        let e = edits[0];
        &&& c <= e.start
        &&& e.start <= e.end + 1
        &&& e.end < contents.len()
        &&& contents.subrange(e.start, e.end + 1) == e.expected
        &&& edits_match_from(edits.subrange(1, edits.len() as int), contents, e.end + 1)
    }
}

/// The buffer from position `c` on, with each edit's range replaced by its
/// replacement bytes and every byte between and after the ranges kept.
pub open spec fn rebuilt_from(edits: Seq<EditView>, contents: Seq<u8>, c: int) -> Seq<u8>
    decreases edits.len(),
{
    if edits.len() == 0 {
        contents.subrange(c, contents.len() as int)
    } else {
        contents.subrange(c, edits[0].start) + edits[0].replacement + rebuilt_from(
            edits.subrange(1, edits.len() as int),
            contents,
            edits[0].end + 1,
        )
    }
}

/// Law: only the targeted spans change. On edits that sit in ascending,
/// non-overlapping order and record the original bytes of their own ranges,
/// the offset-based engine succeeds, and its result is the original buffer
/// with each range replaced in place: every byte outside the recorded ranges
/// is carried over unchanged.
pub proof fn lemma_apply_all_changes_only_the_spans(edits: Seq<EditView>, contents: Seq<u8>)
    requires
        edits_match_from(edits, contents, 0),
    ensures
        apply_all_spec(edits, contents, 0) == Some(rebuilt_from(edits, contents, 0)),
{
    assert(Seq::<u8>::empty() + contents.subrange(0, contents.len() as int) =~= contents);
    lemma_apply_rebuilds(edits, contents, Seq::empty(), 0);
}

/// The inductive core of the law: the live buffer is always an already
/// rewritten prefix followed by the untouched rest of the original, and the
/// running offset is exactly the length difference between the two.
proof fn lemma_apply_rebuilds(edits: Seq<EditView>, contents: Seq<u8>, prefix: Seq<u8>, c: int)
    requires
        0 <= c <= contents.len(),
        edits_match_from(edits, contents, c),
    ensures
        apply_all_spec(
            edits,
            prefix + contents.subrange(c, contents.len() as int),
            prefix.len() - c,
        ) == Some(prefix + rebuilt_from(edits, contents, c)),
    decreases edits.len(),
{
    let b = prefix + contents.subrange(c, contents.len() as int);
    let off = prefix.len() - c;
    if edits.len() == 0 {
        assert(b == prefix + rebuilt_from(edits, contents, c));
    } else {
        let e = edits[0];
        let rest = edits.subrange(1, edits.len() as int);
        // the slice of the live buffer at the shifted range is untouched
        // original text, so it still equals the expected bytes
        assert(b.subrange(e.start + off, e.end + 1 + off) =~= contents.subrange(
            e.start,
            e.end + 1,
        )) by {
            assert forall|k: int| 0 <= k < e.end + 1 - e.start implies #[trigger] b[e.start + off
                + k] == contents[e.start + k] by {
                assert(b[e.start + off + k] == contents.subrange(c, contents.len() as int)[e.start
                    + k - c]);
            }
        }
        let next = b.subrange(0, e.start + off) + e.replacement + b.subrange(
            e.end + 1 + off,
            b.len() as int,
        );
        assert(apply_one(b, e.start + off, e.end + off, e.expected, e.replacement) == Some(next));
        let prefix2 = prefix + contents.subrange(c, e.start) + e.replacement;
        let c2 = e.end + 1;
        assert(b.subrange(0, e.start + off) =~= prefix + contents.subrange(c, e.start)) by {
            assert forall|k: int| prefix.len() <= k < e.start + off implies #[trigger] b[k]
                == contents[k - off] by {
                assert(b[k] == contents.subrange(c, contents.len() as int)[k - prefix.len()]);
            }
        }
        assert(b.subrange(e.end + 1 + off, b.len() as int) =~= contents.subrange(
            c2,
            contents.len() as int,
        )) by {
            assert forall|k: int| e.end + 1 + off <= k < b.len() implies #[trigger] b[k]
                == contents[k - off] by {
                assert(b[k] == contents.subrange(c, contents.len() as int)[k - prefix.len()]);
            }
        }
        assert(next =~= prefix2 + contents.subrange(c2, contents.len() as int));
        assert(e.expected.len() == e.end + 1 - e.start);
        assert(prefix2.len() - c2 == off + e.replacement.len() - e.expected.len());
        lemma_apply_rebuilds(rest, contents, prefix2, c2);
        assert(apply_all_spec(edits, b, off) == apply_all_spec(
            rest,
            next,
            off + e.replacement.len() - e.expected.len(),
        ));
        assert(prefix + rebuilt_from(edits, contents, c) =~= prefix2 + rebuilt_from(
            rest,
            contents,
            c2,
        ));
    }
}

/// Law: with no edits the engine hands the buffer back bit for bit.
pub proof fn lemma_apply_all_empty(contents: Seq<u8>)
    ensures
        apply_all_spec(Seq::empty(), contents, 0) == Some(contents),
{
}

/// When the first remaining edit cannot be applied, the whole run fails.
proof fn lemma_step_none(remaining: Seq<EditView>, cur: Seq<u8>, off: int)
    requires
        remaining.len() > 0,
        apply_one(
            cur,
            remaining[0].start + off,
            remaining[0].end + off,
            remaining[0].expected,
            remaining[0].replacement,
        ) is None,
    ensures
        apply_all_spec(remaining, cur, off) is None,
{
}

// ---------------------------------------------------------------------------
// The patch engine
// ---------------------------------------------------------------------------

impl Replacement {
    /// A new edit for the inclusive byte range `[start, end]`.
    pub fn new(start: usize, end: usize, expected: &[u8], replacement: &[u8]) -> (r: Replacement)
        ensures
            r@ == (EditView {
                start: start as int,
                end: end as int,
                expected: expected@,
                replacement: replacement@,
            }),
    {
        Replacement {
            start,
            end,
            expected: slice_to_vec(expected),
            replacement: slice_to_vec(replacement),
        }
    }

    /// Applies the edits left to right to the whole buffer. Returns the
    /// patched buffer, or the fatal invariant violation if some edit's
    /// expected bytes do not match the buffer at the shifted range.
    pub fn apply_all(rps: &Vec<Replacement>, contents: Vec<u8>) -> (r: Result<Vec<u8>, PatchError>)
        ensures
            match r {
                Ok(out) => apply_all_spec(edit_views(rps@), contents@, 0) == Some(out@),
                Err(_) => apply_all_spec(edit_views(rps@), contents@, 0) is None,
            },
    {
        let base = contents.len();
        let ghost orig = contents@;
        let mut cur = contents;
        let n = rps.len();
        let mut i: usize = 0;
        proof {
            assert(edit_views(rps@).subrange(0, edit_views(rps@).len() as int) =~= edit_views(
                rps@,
            ));
        }
        while i < n
            invariant
                orig == contents@,
                n == rps@.len(),
                base == orig.len(),
                0 <= i <= n,
                apply_all_spec(
                    edit_views(rps@).subrange(i as int, n as int),
                    cur@,
                    cur@.len() - orig.len(),
                ) == apply_all_spec(edit_views(rps@), orig, 0),
            decreases n - i,
        {
            let ghost remaining = edit_views(rps@).subrange(i as int, n as int);
            let ghost off = cur@.len() - orig.len();
            let e = &rps[i];
            let ghost ev = e@;
            proof {
                assert(remaining[0] == ev);
                assert(remaining.subrange(1, remaining.len() as int) =~= edit_views(
                    rps@,
                ).subrange(i as int + 1, n as int));
            }
            // the shifted start of this edit
            let s_sh: usize;
            if cur.len() >= base {
                let d = cur.len() - base;
                match e.start.checked_add(d) {
                    Some(v) => {
                        s_sh = v;
                    },
                    None => {
                        proof {
                            assert(apply_one(cur@, ev.start + off, ev.end + off, ev.expected, ev.replacement) is None);
                            lemma_step_none(remaining, cur@, off);
                            assert(apply_all_spec(edit_views(rps@), orig, 0) is None);
                            assert(orig == contents@);
                            assert(apply_all_spec(edit_views(rps@), contents@, 0) is None);
                        }
                        return Err(PatchError);
                    },
                }
            } else {
                let d = base - cur.len();
                if e.start < d {
                    proof {
                        assert(ev.start + off < 0);
                        assert(apply_one(cur@, ev.start + off, ev.end + off, ev.expected, ev.replacement) is None);
                        lemma_step_none(remaining, cur@, off);
                        assert(apply_all_spec(edit_views(rps@), orig, 0) is None);
                        assert(orig == contents@);
                        assert(apply_all_spec(edit_views(rps@), contents@, 0) is None);
                    }
                    return Err(PatchError);
                }
                s_sh = e.start - d;
            }
            proof {
                assert(s_sh == ev.start + off);
            }
            if s_sh > cur.len() {
                proof {
                    assert(apply_one(cur@, ev.start + off, ev.end + off, ev.expected, ev.replacement) is None);
                    lemma_step_none(remaining, cur@, off);
                    assert(apply_all_spec(edit_views(rps@), orig, 0) is None);
                    assert(orig == contents@);
                    assert(apply_all_spec(edit_views(rps@), contents@, 0) is None);
                }
                return Err(PatchError);
            }
            if e.end >= e.start {
                let diff = e.end - e.start;
                if diff >= cur.len() - s_sh {
                    proof {
                        assert(ev.end + off >= cur@.len());
                        assert(apply_one(cur@, ev.start + off, ev.end + off, ev.expected, ev.replacement) is None);
                        lemma_step_none(remaining, cur@, off);
                        assert(apply_all_spec(edit_views(rps@), orig, 0) is None);
                        assert(orig == contents@);
                        assert(apply_all_spec(edit_views(rps@), contents@, 0) is None);
                    }
                    return Err(PatchError);
                }
                let rlen = diff + 1;
                if e.expected.len() != rlen {
                    proof {
                        assert(cur@.subrange(ev.start + off, ev.end + off + 1).len()
                            != ev.expected.len());
                        assert(apply_one(cur@, ev.start + off, ev.end + off, ev.expected, ev.replacement) is None);
                        lemma_step_none(remaining, cur@, off);
                        assert(apply_all_spec(edit_views(rps@), orig, 0) is None);
                        assert(orig == contents@);
                        assert(apply_all_spec(edit_views(rps@), contents@, 0) is None);
                    }
                    return Err(PatchError);
                }
                if !range_equals(&cur, s_sh, &e.expected) {
                    proof {
                        assert(cur@.subrange(ev.start + off, ev.end + off + 1) != ev.expected);
                        assert(apply_one(cur@, ev.start + off, ev.end + off, ev.expected, ev.replacement) is None);
                        lemma_step_none(remaining, cur@, off);
                        assert(apply_all_spec(edit_views(rps@), orig, 0) is None);
                        assert(orig == contents@);
                        assert(apply_all_spec(edit_views(rps@), contents@, 0) is None);
                    }
                    return Err(PatchError);
                }
                let ghost before = cur@;
                cur = splice_bytes(&cur, s_sh, rlen, &e.replacement);
                proof {
                    assert(apply_one(before, ev.start + off, ev.end + off, ev.expected, ev.replacement) == Some(cur@));
                    assert(cur@.len() - orig.len() == off + ev.replacement.len()
                        - ev.expected.len());
                }
            } else {
                // an empty range: `end` is just before `start`
                if e.end + 1 != e.start {
                    proof {
                        assert(ev.start > ev.end + 1);
                        assert(apply_one(cur@, ev.start + off, ev.end + off, ev.expected, ev.replacement) is None);
                        lemma_step_none(remaining, cur@, off);
                        assert(apply_all_spec(edit_views(rps@), orig, 0) is None);
                        assert(orig == contents@);
                        assert(apply_all_spec(edit_views(rps@), contents@, 0) is None);
                    }
                    return Err(PatchError);
                }
                if e.expected.len() != 0 {
                    proof {
                        assert(cur@.subrange(ev.start + off, ev.end + off + 1).len() == 0);
                        assert(apply_one(cur@, ev.start + off, ev.end + off, ev.expected, ev.replacement) is None);
                        lemma_step_none(remaining, cur@, off);
                        assert(apply_all_spec(edit_views(rps@), orig, 0) is None);
                        assert(orig == contents@);
                        assert(apply_all_spec(edit_views(rps@), contents@, 0) is None);
                    }
                    return Err(PatchError);
                }
                let ghost before = cur@;
                cur = splice_bytes(&cur, s_sh, 0, &e.replacement);
                proof {
                    assert(before.subrange(ev.start + off, ev.end + off + 1) =~= ev.expected);
                    assert(apply_one(before, ev.start + off, ev.end + off, ev.expected, ev.replacement) == Some(cur@));
                    assert(cur@.len() - orig.len() == off + ev.replacement.len()
                        - ev.expected.len());
                }
            }
            i = i + 1;
        }
        proof {
            assert(edit_views(rps@).subrange(n as int, n as int).len() == 0);
        }
        Ok(cur)
    }
}

} // verus!
