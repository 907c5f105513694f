//! The scope rule language.
//!
//! A scope is written `variant:pattern,pattern,...` where the variant is one
//! of `att`, `prop` or `fn` and each pattern is an identifier optionally
//! carrying a leading and/or trailing `*` wildcard. A scope decides whether a
//! given identifier, seen in a given syntactic role, is a site where the
//! rewrite may take place.

use crate::text::chars_contain;
use crate::text::chars_end_with;
use crate::text::chars_equal;
use crate::text::chars_of;
use crate::text::chars_start_with;
use crate::text::contains_seq;
use crate::text::leading_count;
use crate::text::split_on;
use crate::text::str_equal;
use crate::text::trailing_count;
use crate::text::lemma_leading_count_at;
use crate::text::lemma_split_on_step;
use crate::text::lemma_trailing_count;
use crate::text::lemma_trailing_count_at;
use crate::Str;
use vstd::prelude::*;

verus! {

/// The syntactic roles a scope rule can apply to.
#[derive(Debug, Clone, Copy, PartialEq, Eq, Structural)]
pub enum ScopeVariant {
    /// A tag attribute whose value subtree is rewritten.
    AttrNames,
    /// An object property whose value subtree is rewritten.
    RecordEntries,
    /// A call expression whose argument list is rewritten.
    FnCall,
}

/// How a pattern is compared against a candidate identifier.
#[derive(Debug, Clone, Copy, PartialEq, Eq, Structural)]
pub enum MatchType {
    /// The identifier equals the pattern.
    Is,
    /// The identifier contains the pattern (`*p*`).
    Contains,
    /// The identifier starts with the pattern (`p*`).
    StartsWith,
    /// The identifier ends with the pattern (`*p`).
    EndWith,
}

impl Default for MatchType {
    fn default() -> (r: Self)
        ensures
            r == MatchType::Is,
    {
        MatchType::Is
    }
}

/// One parsed pattern: a comparison kind and the pattern text.
#[derive(Debug, Clone, PartialEq)]
pub struct ScopeValue(pub MatchType, pub Str);

/// The mathematical content of a `ScopeValue`.
#[verifier::ext_equal]
pub ghost struct ScopeValueView {
    pub kind: MatchType,
    pub pattern: Seq<char>,
}

impl View for ScopeValue {
    type V = ScopeValueView;

    open spec fn view(&self) -> ScopeValueView {
        ScopeValueView { kind: self.0, pattern: self.1@ }
    }
}

/// A parsed scope rule: a variant and a non-empty list of patterns.
#[derive(Debug, Clone, PartialEq)]
pub struct Scope {
    pub variant: ScopeVariant,
    pub values: Vec<ScopeValue>,
}

/// The mathematical content of a `Scope`.
#[verifier::ext_equal]
pub ghost struct ScopeView {
    pub variant: ScopeVariant,
    pub values: Seq<ScopeValueView>,
}

impl View for Scope {
    type V = ScopeView;

    open spec fn view(&self) -> ScopeView {
        ScopeView {
            variant: self.variant,
            values: self.values@.map_values(|v: ScopeValue| v@),
        }
    }
}

/// The ways a scope string can be rejected.
#[derive(Debug, Clone, Copy, PartialEq, Eq, Structural)]
pub enum ScopeError {
    /// The string does not consist of exactly two `:`-separated parts.
    IncorrectParts,
    /// A pattern has a `*` strictly between two non-`*` characters.
    MiddleWildcard,
    /// No non-empty pattern remains after splitting the value list.
    NoValues,
    /// The variant token is not one of `att`, `prop`, `fn`.
    UnrecognizedVariant,
}

// ---------------------------------------------------------------------------
// Specification of parsing
// ---------------------------------------------------------------------------

/// A pattern is well formed when its `*` characters sit only at the edges and
/// at least one ordinary character remains.
pub open spec fn pattern_valid(v: Seq<char>) -> bool {
    let a = leading_count(v, '*');
    let b = trailing_count(v, '*');
    &&& a + b < v.len()
    &&& forall|j: int| a <= j < v.len() - b ==> v[j] != '*'
}

/// The comparison kind and pattern text denoted by a well-formed pattern:
/// stars at both edges mean `Contains`, a leading star means `EndWith`, a
/// trailing star means `StartsWith`, no star means `Is`; the pattern text is
/// what remains between the stars.
pub open spec fn classify_pattern(v: Seq<char>) -> ScopeValueView {
    let a = leading_count(v, '*');
    let b = trailing_count(v, '*');
    let kind = if a > 0 && b > 0 {
        MatchType::Contains
    } else if a > 0 {
        MatchType::EndWith
    } else if b > 0 {
        MatchType::StartsWith
    } else {
        MatchType::Is
    };
    ScopeValueView { kind: kind, pattern: v.subrange(a, v.len() - b) }
}

/// The variant denoted by a variant token, if any.
pub open spec fn variant_of(s: Seq<char>) -> Option<ScopeVariant> {
    if s == "att"@ {
        Some(ScopeVariant::AttrNames)
    } else if s == "prop"@ {
        Some(ScopeVariant::RecordEntries)
    } else if s == "fn"@ {
        Some(ScopeVariant::FnCall)
    } else {
        None
    }
}

/// The subsequence of non-empty pieces.
pub open spec fn nonempty_of(parts: Seq<Seq<char>>) -> Seq<Seq<char>>
    decreases parts.len(),
{
    if parts.len() == 0 {
        Seq::empty()
    } else {
        let rest = nonempty_of(parts.drop_last());
        if parts.last().len() > 0 {
            rest.push(parts.last())
        } else {
            rest
        }
    }
}

/// Each fragment classified in order.
pub open spec fn classified_of(frags: Seq<Seq<char>>) -> Seq<ScopeValueView>
    decreases frags.len(),
{
    if frags.len() == 0 {
        Seq::empty()
    } else {
        classified_of(frags.drop_last()).push(classify_pattern(frags.last()))
    }
}

/// Every fragment is a well-formed pattern.
pub open spec fn all_valid(frags: Seq<Seq<char>>) -> bool {
    forall|i: int| 0 <= i < frags.len() ==> pattern_valid(#[trigger] frags[i])
}

/// The non-empty pattern fragments of the value part of a scope string.
pub open spec fn scope_fragments(values: Seq<char>) -> Seq<Seq<char>> {
    nonempty_of(split_on(values, ','))
}

/// What parsing a scope string yields: the string must have exactly one `:`;
/// every non-empty `,`-separated pattern fragment must be well formed; at
/// least one such fragment must exist; and the variant token must be
/// recognized. The result carries the classified patterns in order.
pub open spec fn spec_parse_scope(s: Seq<char>) -> Result<ScopeView, ScopeError> {
    let parts = split_on(s, ':');
    if parts.len() != 2 {
        Err(ScopeError::IncorrectParts)
    } else {
        let frags = scope_fragments(parts[1]);
        if !all_valid(frags) {
            Err(ScopeError::MiddleWildcard)
        } else if frags.len() == 0 {
            Err(ScopeError::NoValues)
        } else {
            match variant_of(parts[0]) {
                None => Err(ScopeError::UnrecognizedVariant),
                Some(var) => Ok(ScopeView { variant: var, values: classified_of(frags) }),
            }
        }
    }
}

// ---------------------------------------------------------------------------
// Specification of matching
// ---------------------------------------------------------------------------

/// Whether one pattern entry matches an identifier under its comparison kind.
pub open spec fn value_matches(v: ScopeValueView, s: Seq<char>) -> bool {
    match v.kind {
        MatchType::Is => v.pattern == s,
        MatchType::Contains => contains_seq(s, v.pattern),
        MatchType::StartsWith => v.pattern.is_prefix_of(s),
        MatchType::EndWith => v.pattern.is_suffix_of(s),
    }
}

/// Whether a scope matches an identifier seen under a syntactic role: the
/// role must equal the scope's variant and some pattern entry must match.
pub open spec fn scope_matches(sc: ScopeView, s: Seq<char>, variant: ScopeVariant) -> bool {
    sc.variant == variant && exists|i: int|
        0 <= i < sc.values.len() && value_matches(#[trigger] sc.values[i], s)
}

impl Scope {
    /// Whether this scope matches identifier `s` under role `s_variant`.
    pub fn matches(&self, s: &str, s_variant: ScopeVariant) -> (r: bool)
        ensures
            r == scope_matches(self@, s@, s_variant),
    {
        let sv = chars_of(s);
        let n = self.values.len();
        let mut i: usize = 0;
        while i < n
            invariant
                n == self.values@.len(),
                sv@ == s@,
                0 <= i <= n,
                forall|j: int|
                    0 <= j < i ==> !(value_matches(#[trigger] self@.values[j], s@)
                        && self.variant == s_variant),
            decreases n - i,
        {
            let value = &self.values[i];
            let pv = chars_of(value.1.as_str());
            let m = match value.0 {
                MatchType::Is => chars_equal(&pv, &sv),
                MatchType::Contains => chars_contain(&sv, &pv),
                MatchType::StartsWith => chars_start_with(&sv, &pv),
                MatchType::EndWith => chars_end_with(&sv, &pv),
            };
            proof {
                assert(self@.values[i as int] == self.values@[i as int]@);
                assert(m == value_matches(self@.values[i as int], s@));
            }
            if m && variant_equal(self.variant, s_variant) {
                return true;
            }
            i = i + 1;
        }
        false
    }
}

/// Whether two syntactic roles are the same.
fn variant_equal(a: ScopeVariant, b: ScopeVariant) -> (r: bool)
    ensures
        r == (a == b),
{
    a == b
}

// ---------------------------------------------------------------------------
// Lemmas about the parsing helpers
// ---------------------------------------------------------------------------

/// Keeping the non-empty pieces distributes over concatenation.
pub proof fn lemma_nonempty_of_add(a: Seq<Seq<char>>, b: Seq<Seq<char>>)
    ensures
        nonempty_of(a + b) == nonempty_of(a) + nonempty_of(b),
    decreases b.len(),
{
    if b.len() == 0 {
        assert(a + b =~= a);
        assert(nonempty_of(b) == Seq::<Seq<char>>::empty());
        assert(nonempty_of(a) + nonempty_of(b) =~= nonempty_of(a));
    } else {
        lemma_nonempty_of_add(a, b.drop_last());
        assert((a + b).drop_last() =~= a + b.drop_last());
        assert((a + b).last() == b.last());
        if b.last().len() > 0 {
            assert(nonempty_of(a) + nonempty_of(b) =~= (nonempty_of(a) + nonempty_of(
                b.drop_last(),
            )).push(b.last()));
        }
    }
}

/// The non-empty pieces are indeed non-empty.
pub proof fn lemma_nonempty_of_elements(parts: Seq<Seq<char>>)
    ensures
        forall|t: int| 0 <= t < nonempty_of(parts).len() ==> #[trigger] nonempty_of(
            parts,
        )[t].len() > 0,
    decreases parts.len(),
{
    if parts.len() > 0 {
        lemma_nonempty_of_elements(parts.drop_last());
        let rest = nonempty_of(parts.drop_last());
        assert forall|t: int| 0 <= t < nonempty_of(parts).len() implies #[trigger] nonempty_of(
            parts,
        )[t].len() > 0 by {
            if parts.last().len() > 0 {
                if t < rest.len() {
                    assert(nonempty_of(parts)[t] == rest[t]);
                } else {
                    assert(nonempty_of(parts)[t] == parts.last());
                }
            } else {
                assert(nonempty_of(parts)[t] == rest[t]);
            }
        }
    }
}

/// Classification is applied pointwise and keeps the length.
pub proof fn lemma_classified_of_index(frags: Seq<Seq<char>>)
    ensures
        classified_of(frags).len() == frags.len(),
        forall|t: int| 0 <= t < frags.len() ==> classified_of(frags)[t] == classify_pattern(
            #[trigger] frags[t],
        ),
    decreases frags.len(),
{
    if frags.len() > 0 {
        lemma_classified_of_index(frags.drop_last());
        let rest = classified_of(frags.drop_last());
        assert forall|t: int| 0 <= t < frags.len() implies classified_of(frags)[t]
            == classify_pattern(#[trigger] frags[t]) by {
            if t < frags.len() - 1 {
                assert(classified_of(frags)[t] == rest[t]);
                assert(frags.drop_last()[t] == frags[t]);
            } else {
                assert(classified_of(frags)[t] == classify_pattern(frags.last()));
            }
        }
    }
}

/// A fragment without any `*` is well formed and is classified as an exact
/// pattern equal to the fragment itself.
pub proof fn lemma_plain_fragment_classifies_exact(f: Seq<char>)
    requires
        f.len() > 0,
        forall|j: int| 0 <= j < f.len() ==> f[j] != '*',
    ensures
        pattern_valid(f),
        classify_pattern(f) == (ScopeValueView { kind: MatchType::Is, pattern: f }),
{
    lemma_leading_count_at(f, '*', 0);
    lemma_trailing_count_at(f, '*', 0);
    assert(f.subrange(0, f.len() as int) =~= f);
    assert(classify_pattern(f) =~= ScopeValueView { kind: MatchType::Is, pattern: f });
}

// ---------------------------------------------------------------------------
// The executable parser
// ---------------------------------------------------------------------------

/// Classifies the pattern fragment `s[p..q]` and appends the result to
/// `values`; empty fragments are skipped, malformed ones are rejected.
fn push_fragment(s: &str, cv: &Vec<char>, p: usize, q: usize, values: &mut Vec<ScopeValue>) -> (r:
    Result<(), ScopeError>)
    requires
        cv@ == s@,
        p <= q <= s@.len(),
    ensures
        ({
            let f = s@.subrange(p as int, q as int);
            match r {
                Ok(_) => {
                    &&& (f.len() == 0 ==> final(values)@ == old(values)@)
                    &&& (f.len() > 0 ==> pattern_valid(f))
                    &&& (f.len() > 0 ==> final(values)@.len() == old(values)@.len() + 1)
                    &&& (f.len() > 0 ==> final(values)@.drop_last() == old(values)@)
                    &&& (f.len() > 0 ==> final(values)@.last()@ == classify_pattern(f))
                },
                Err(e) => e == ScopeError::MiddleWildcard && f.len() > 0 && !pattern_valid(f)
                    && final(values)@ == old(values)@,
            }
        }),
{
    let ghost f = s@.subrange(p as int, q as int);
    if p == q {
        return Ok(());
    }
    let len = q - p;
    proof {
        assert(len == f.len());
        assert(forall|j: int| 0 <= j < f.len() ==> f[j] == s@[p + j]);
    }
    // count the leading stars
    let mut a: usize = 0;
    while a < len && cv[p + a] == '*'
        invariant
            cv@ == s@,
            p + len == q <= s@.len(),
            f == s@.subrange(p as int, q as int),
            len == f.len(),
            0 <= a <= len,
            forall|j: int| 0 <= j < a ==> f[j] == '*',
        decreases len - a,
    {
        a = a + 1;
    }
    proof {
        lemma_leading_count_at(f, '*', a as int);
    }
    if a == len {
        proof {
            lemma_trailing_count(f, '*');
            assert(!pattern_valid(f));
        }
        return Err(ScopeError::MiddleWildcard);
    }
    // count the trailing stars; they cannot reach the character at `a`
    let mut b: usize = 0;
    while b < len - a && cv[q - 1 - b] == '*'
        invariant
            cv@ == s@,
            p + len == q <= s@.len(),
            f == s@.subrange(p as int, q as int),
            len == f.len(),
            a < len,
            leading_count(f, '*') == a,
            f[a as int] != '*',
            0 <= b <= len - a,
            forall|t: int| 0 <= t < b ==> #[trigger] f[len - 1 - t] == '*',
        decreases len - a - b,
    {
        b = b + 1;
    }
    proof {
        if b == len - a {
            assert(f[len - 1 - (len - a - 1)] == '*');
            assert(false);
        }
        assert(b < len - a);
        assert forall|j: int| len - b <= j < len implies f[j] == '*' by {
            assert(f[len - 1 - (len - 1 - j)] == '*');
        }
        lemma_trailing_count_at(f, '*', b as int);
    }
    // reject a star strictly inside
    let mut j: usize = a;
    while j < len - b
        invariant
            cv@ == s@,
            p + len == q <= s@.len(),
            f == s@.subrange(p as int, q as int),
            len == f.len(),
            a < len,
            b < len - a,
            leading_count(f, '*') == a,
            trailing_count(f, '*') == b,
            a <= j <= len - b,
            forall|t: int| a <= t < j ==> f[t] != '*',
        decreases len - b - j,
    {
        if cv[p + j] == '*' {
            proof {
                assert(f[j as int] == '*');
                assert(!pattern_valid(f));
            }
            return Err(ScopeError::MiddleWildcard);
        }
        j = j + 1;
    }
    proof {
        assert(pattern_valid(f));
    }
    let kind = if a > 0 && b > 0 {
        MatchType::Contains
    } else if a > 0 {
        MatchType::EndWith
    } else if b > 0 {
        MatchType::StartsWith
    } else {
        MatchType::Is
    };
    let ident = s.substring_char(p + a, q - b);
    proof {
        assert(ident@ =~= f.subrange(a as int, len - b));
    }
    values.push(ScopeValue(kind, Str(ident.to_owned())));
    proof {
        assert(values@.drop_last() =~= old(values)@);
        assert(values@.last()@ =~= classify_pattern(f));
    }
    Ok(())
}

impl Scope {
    /// Parses a scope string of the form `variant:pattern,pattern,...`.
    pub fn parse(s: &str) -> (r: Result<Scope, ScopeError>)
        ensures
            match r {
                Ok(sc) => spec_parse_scope(s@) == Ok::<ScopeView, ScopeError>(sc@),
                Err(e) => spec_parse_scope(s@) == Err::<ScopeView, ScopeError>(e),
            },
    {
        let cv = chars_of(s);
        let n = cv.len();
        // locate up to two occurrences of ':'
        let mut nfound: usize = 0;
        let mut first: usize = 0;
        let mut second: usize = 0;
        let mut i: usize = 0;
        while i < n
            invariant
                cv@ == s@,
                n == s@.len(),
                0 <= i <= n,
                nfound <= 2,
                nfound == 0 ==> forall|j: int| 0 <= j < i ==> s@[j] != ':',
                nfound >= 1 ==> 0 <= first && first < i && s@[first as int] == ':',
                nfound >= 1 ==> forall|j: int| 0 <= j < first ==> s@[j] != ':',
                nfound == 1 ==> forall|j: int| first < j < i ==> s@[j] != ':',
                nfound == 2 ==> first < second && second < i && s@[second as int] == ':',
                nfound == 2 ==> forall|j: int| first < j < second ==> s@[j] != ':',
            decreases n - i,
        {
            if cv[i] == ':' {
                if nfound == 0 {
                    first = i;
                    nfound = 1;
                } else if nfound == 1 {
                    second = i;
                    nfound = 2;
                }
            }
            i = i + 1;
        }
        if nfound == 0 {
            proof {
                lemma_split_on_step(s@, ':', n as int);
            }
            return Err(ScopeError::IncorrectParts);
        }
        if nfound == 2 {
            proof {
                lemma_split_on_step(s@, ':', first as int);
                let rest = s@.subrange(first as int + 1, n as int);
                assert forall|j: int| 0 <= j < second - first - 1 implies rest[j] != ':' by {
                    assert(s@[first + 1 + j] != ':');
                }
                assert(rest[second - first - 1] == ':');
                lemma_split_on_step(rest, ':', second - first - 1);
                assert(split_on(s@, ':').len() >= 3);
            }
            return Err(ScopeError::IncorrectParts);
        }
        // exactly one ':', at index `first`
        let k = first;
        let ghost vs = s@.subrange(k as int + 1, n as int);
        proof {
            lemma_split_on_step(s@, ':', k as int);
            assert forall|j: int| 0 <= j < vs.len() implies vs[j] != ':' by {
                assert(s@[k + 1 + j] != ':');
            }
            lemma_split_on_step(vs, ':', vs.len() as int);
            assert(split_on(s@, ':') =~= seq![s@.subrange(0, k as int), vs]);
        }
        let mut values: Vec<ScopeValue> = Vec::new();
        let ghost mut raw_done: Seq<Seq<char>> = Seq::empty();
        let ghost mut frags_done: Seq<Seq<char>> = Seq::empty();
        let mut frag_start: usize = k + 1;
        let mut i2: usize = k + 1;
        while i2 < n
            invariant
                cv@ == s@,
                n == s@.len(),
                k < n,
                s@[k as int] == ':',
                forall|j: int| 0 <= j < k ==> s@[j] != ':',
                forall|j: int| k < j < n ==> s@[j] != ':',
                vs == s@.subrange(k as int + 1, n as int),
                split_on(s@, ':') =~= seq![s@.subrange(0, k as int), vs],
                k + 1 <= frag_start <= i2 <= n,
                forall|j: int| frag_start <= j < i2 ==> s@[j] != ',',
                split_on(vs, ',') == raw_done + split_on(
                    s@.subrange(frag_start as int, n as int),
                    ',',
                ),
                frags_done == nonempty_of(raw_done),
                all_valid(frags_done),
                values@.len() == frags_done.len(),
                forall|t: int|
                    0 <= t < values@.len() ==> (#[trigger] values@[t])@ == classify_pattern(
                        frags_done[t],
                    ),
            decreases n - i2,
        {
            if cv[i2] == ',' {
                let ghost f = s@.subrange(frag_start as int, i2 as int);
                let ghost tail = s@.subrange(frag_start as int, n as int);
                proof {
                    assert forall|j: int| 0 <= j < i2 - frag_start implies tail[j] != ',' by {
                        assert(s@[frag_start + j] != ',');
                    }
                    assert(tail[i2 - frag_start] == ',');
                    lemma_split_on_step(tail, ',', i2 - frag_start as int);
                    assert(tail.subrange(0, i2 - frag_start as int) =~= f);
                    assert(tail.subrange(i2 - frag_start as int + 1, tail.len() as int)
                        =~= s@.subrange(i2 as int + 1, n as int));
                    assert(split_on(tail, ',') == seq![f] + split_on(
                        s@.subrange(i2 as int + 1, n as int),
                        ',',
                    ));
                }
                match push_fragment(s, &cv, frag_start, i2, &mut values) {
                    Ok(_) => {},
                    Err(e) => {
                        proof {
                            lemma_error_fragment(vs, raw_done, frags_done, f, s@.subrange(
                                i2 as int + 1,
                                n as int,
                            ));
                        }
                        return Err(e);
                    },
                }
                proof {
                    let old_raw = raw_done;
                    let old_frags = frags_done;
                    raw_done = raw_done.push(f);
                    assert(raw_done.drop_last() =~= old_raw);
                    assert(raw_done.last() == f);
                    if f.len() > 0 {
                        frags_done = frags_done.push(f);
                        assert(frags_done.drop_last() =~= old_frags);
                        assert forall|t: int|
                            0 <= t < values@.len() implies (#[trigger] values@[t])@
                            == classify_pattern(frags_done[t]) by {
                            if t < values@.len() - 1 {
                                assert(values@[t] == values@.drop_last()[t]);
                                assert(frags_done[t] == old_frags[t]);
                            } else {
                                assert(values@[t] == values@.last());
                                assert(frags_done[t] == f);
                            }
                        }
                    }
                    assert(frags_done == nonempty_of(raw_done));
                    assert(raw_done + split_on(s@.subrange(i2 as int + 1, n as int), ',')
                        =~= old_raw + (seq![f] + split_on(s@.subrange(i2 as int + 1, n as int), ',')));
                }
                frag_start = i2 + 1;
            }
            i2 = i2 + 1;
        }
        // the fragment after the last comma
        let ghost f = s@.subrange(frag_start as int, n as int);
        proof {
            assert forall|j: int| 0 <= j < f.len() implies f[j] != ',' by {
                assert(s@[frag_start + j] != ',');
            }
            lemma_split_on_step(f, ',', f.len() as int);
            assert(split_on(f, ',') == seq![f]);
        }
        match push_fragment(s, &cv, frag_start, n, &mut values) {
            Ok(_) => {},
            Err(e) => {
                proof {
                    lemma_error_fragment_last(vs, raw_done, frags_done, f);
                }
                return Err(e);
            },
        }
        proof {
            let old_raw = raw_done;
            let old_frags = frags_done;
            raw_done = raw_done.push(f);
            assert(raw_done.drop_last() =~= old_raw);
            assert(raw_done.last() == f);
            if f.len() > 0 {
                frags_done = frags_done.push(f);
                assert(frags_done.drop_last() =~= old_frags);
                assert forall|t: int|
                    0 <= t < values@.len() implies (#[trigger] values@[t])@ == classify_pattern(
                    frags_done[t],
                ) by {
                    if t < values@.len() - 1 {
                        assert(values@[t] == values@.drop_last()[t]);
                        assert(frags_done[t] == old_frags[t]);
                    } else {
                        assert(values@[t] == values@.last());
                        assert(frags_done[t] == f);
                    }
                }
            }
            assert(frags_done == nonempty_of(raw_done));
            assert(old_raw + seq![f] =~= raw_done);
            assert(split_on(vs, ',') == raw_done);
            assert(scope_fragments(vs) == frags_done);
        }
        if values.len() == 0 {
            return Err(ScopeError::NoValues);
        }
        let vpart = s.substring_char(0, k);
        proof {
            assert(vpart@ == s@.subrange(0, k as int));
        }
        let variant = if str_equal(vpart, "att") {
            ScopeVariant::AttrNames
        } else if str_equal(vpart, "prop") {
            ScopeVariant::RecordEntries
        } else if str_equal(vpart, "fn") {
            ScopeVariant::FnCall
        } else {
            return Err(ScopeError::UnrecognizedVariant);
        };
        let sc = Scope { variant, values };
        proof {
            lemma_classified_of_index(frags_done);
            assert(sc@.values == sc.values@.map_values(|v: ScopeValue| v@));
            assert forall|t: int| 0 <= t < values@.len() implies sc@.values[t] == classified_of(
                frags_done,
            )[t] by {
                assert(sc@.values[t] == values@[t]@);
                assert(values@[t]@ == classify_pattern(frags_done[t]));
            }
            assert(sc@.values =~= classified_of(frags_done));
            assert(sc@ =~= ScopeView { variant: sc.variant, values: classified_of(frags_done) });
        }
        Ok(sc)
    }
}

impl core::str::FromStr for Scope {
    type Err = ScopeError;

    fn from_str(s: &str) -> Result<Scope, ScopeError> {
        Scope::parse(s)
    }
}

// ---------------------------------------------------------------------------
// Laws relating parsing and matching
// ---------------------------------------------------------------------------

/// Law: in a parsed scope, any pattern entry of kind `Is` matches its own
/// pattern text under the scope's variant, and nothing matches under any
/// other variant.
pub proof fn lemma_parsed_exact_pattern_matches(s: Seq<char>, sc: ScopeView, i: int)
    requires
        spec_parse_scope(s) == Ok::<ScopeView, ScopeError>(sc),
        0 <= i < sc.values.len(),
        sc.values[i].kind == MatchType::Is,
    ensures
        scope_matches(sc, sc.values[i].pattern, sc.variant),
        forall|ident: Seq<char>, v: ScopeVariant| v != sc.variant ==> !scope_matches(sc, ident, v),
{
    assert(value_matches(sc.values[i], sc.values[i].pattern));
}

/// Law: parsing then matching. If the value part of a scope string contains a
/// wildcard-free pattern, the parsed scope matches an identifier equal to
/// that pattern under the scope's own variant, and matches nothing under any
/// other variant.
pub proof fn lemma_parse_then_match(s: Seq<char>, sc: ScopeView, i: int)
    requires
        spec_parse_scope(s) == Ok::<ScopeView, ScopeError>(sc),
        0 <= i < scope_fragments(split_on(s, ':')[1]).len(),
        forall|j: int|
            0 <= j < scope_fragments(split_on(s, ':')[1])[i].len() ==> #[trigger] scope_fragments(
                split_on(s, ':')[1],
            )[i][j] != '*',
    ensures
        scope_matches(sc, scope_fragments(split_on(s, ':')[1])[i], sc.variant),
        forall|ident: Seq<char>, v: ScopeVariant| v != sc.variant ==> !scope_matches(sc, ident, v),
{
    let parts = split_on(s, ':');
    let frags = scope_fragments(parts[1]);
    let f = frags[i];
    lemma_nonempty_of_elements(split_on(parts[1], ','));
    assert(f.len() > 0);
    lemma_plain_fragment_classifies_exact(f);
    lemma_classified_of_index(frags);
    assert(sc.values[i] == classify_pattern(f));
    assert(sc.values[i].kind == MatchType::Is);
    assert(sc.values[i].pattern == f);
    lemma_parsed_exact_pattern_matches(s, sc, i);
}

/// When a malformed fragment is found mid-scan, the whole value part indeed
/// contains a malformed non-empty fragment.
proof fn lemma_error_fragment(
    vs: Seq<char>,
    raw_done: Seq<Seq<char>>,
    frags_done: Seq<Seq<char>>,
    f: Seq<char>,
    after: Seq<char>,
)
    requires
        split_on(vs, ',') == raw_done + (seq![f] + split_on(after, ',')),
        frags_done == nonempty_of(raw_done),
        f.len() > 0,
        !pattern_valid(f),
    ensures
        !all_valid(scope_fragments(vs)),
{
    lemma_nonempty_of_add(raw_done, seq![f] + split_on(after, ','));
    lemma_nonempty_of_add(seq![f], split_on(after, ','));
    assert(seq![f].drop_last() =~= Seq::<Seq<char>>::empty());
    assert(nonempty_of(seq![f].drop_last()) == Seq::<Seq<char>>::empty());
    assert(nonempty_of(seq![f]) =~= seq![f]);
    let frags = scope_fragments(vs);
    assert(frags == frags_done + (seq![f] + nonempty_of(split_on(after, ','))));
    assert(frags[frags_done.len() as int] == f);
}

/// The same, for the fragment that ends the value part.
proof fn lemma_error_fragment_last(
    vs: Seq<char>,
    raw_done: Seq<Seq<char>>,
    frags_done: Seq<Seq<char>>,
    f: Seq<char>,
)
    requires
        split_on(vs, ',') == raw_done + split_on(f, ','),
        split_on(f, ',') == seq![f],
        frags_done == nonempty_of(raw_done),
        f.len() > 0,
        !pattern_valid(f),
    ensures
        !all_valid(scope_fragments(vs)),
{
    lemma_nonempty_of_add(raw_done, seq![f]);
    assert(seq![f].drop_last() =~= Seq::<Seq<char>>::empty());
    assert(nonempty_of(seq![f].drop_last()) == Seq::<Seq<char>>::empty());
    assert(nonempty_of(seq![f]) =~= seq![f]);
    let frags = scope_fragments(vs);
    assert(frags == frags_done + seq![f]);
    assert(frags[frags_done.len() as int] == f);
}

} // verus!
