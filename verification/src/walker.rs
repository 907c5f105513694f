//! The scoped syntax walker.
//!
//! The walker descends a plain model of a parsed syntax tree. Three kinds of
//! syntactic site can switch the traversal into scope when their identifier
//! matches the configured scope rules: a tag attribute (its value subtree),
//! a call expression with a plain identifier callee (its argument list), and
//! an object property with an identifier key (its value subtree). A string
//! literal visited in scope is run through the class token rewriter; when
//! the rewrite changes it, an edit anchored to the literal's byte span in
//! the original file is recorded.
//!
//! Scope state is carried down the recursion as an explicit parameter: a
//! scoped subtree is walked in scope, and siblings outside it keep the
//! enclosing state.

use crate::patch::apply_all_spec;
use crate::patch::edit_views;
use crate::patch::EditView;
use crate::patch::PatchError;
use crate::patch::Replacement;
use crate::rewrite::any_matched;
use crate::rewrite::rewrite_class_list;
use crate::rewrite::rewrite_spec;
use crate::rewrite::views_of;
use crate::scope::scope_matches;
use crate::scope::Scope;
use crate::scope::ScopeVariant;
use crate::Str;
use vstd::prelude::*;
use vstd::utf8::encode_utf8;

verus! {

/// A plain model of a syntax tree node, carrying exactly what the walker
/// reads: node kinds, identifier names, string literal values, and the byte
/// spans the parser recorded for string literals.
pub enum Node {
    /// A tag attribute: its name (when the parser saw a plain identifier)
    /// and its value subtree.
    Attribute { name: Option<String>, value: Vec<Node> },
    /// A call expression: its callee name (when the callee is a plain
    /// identifier) and its argument subtrees.
    Call { callee: Option<String>, args: Vec<Node> },
    /// An object property: its key (when the key is a plain identifier) and
    /// its value subtree.
    Property { key: Option<String>, value: Vec<Node> },
    /// A string literal: its decoded value and the byte span `[lo, hi)` that
    /// the parser recorded for the whole literal, 1-based and including the
    /// quote characters.
    Text { value: String, lo: usize, hi: usize },
    /// Any other node: only its children matter to the walker.
    Group { children: Vec<Node> },
}

/// Whether an optional identifier matches the scope configuration under the
/// given syntactic role.
pub open spec fn name_matches(
    name: Option<String>,
    scopes: Seq<Scope>,
    variant: ScopeVariant,
) -> bool {
    match name {
        Some(nm) => config_matches(scopes, nm@, variant),
        None => false,
    }
}

/// Whether any configured scope rule matches the identifier under the role.
pub open spec fn config_matches(scopes: Seq<Scope>, s: Seq<char>, variant: ScopeVariant) -> bool {
    exists|i: int| 0 <= i < scopes.len() && scope_matches(#[trigger] scopes[i]@, s, variant)
}

/// The edit recorded for a rewritten string literal: the value content of
/// the literal sits at bytes `[lo, hi - 3]` of the file (the recorded span
/// is 1-based and includes the two quote characters), the expected bytes are
/// the literal's value, and the replacement is the rewritten value.
pub open spec fn text_edit(
    value: Seq<char>,
    lo: int,
    hi: int,
    known: Seq<Seq<char>>,
    prefix: Seq<char>,
) -> EditView {
    EditView {
        start: lo,
        end: hi - 3,
        expected: encode_utf8(value),
        replacement: encode_utf8(rewrite_spec(value, known, prefix)),
    }
}

/// The edits the walker records for one node, in source order.
pub open spec fn walk_node(
    n: Node,
    in_scope: bool,
    scopes: Seq<Scope>,
    known: Seq<Seq<char>>,
    prefix: Seq<char>,
) -> Seq<EditView>
    decreases n,
{
    match n {
        Node::Attribute { name, value } => walk_nodes(
            value@,
            in_scope || name_matches(name, scopes, ScopeVariant::AttrNames),
            scopes,
            known,
            prefix,
        ),
        Node::Call { callee, args } => walk_nodes(
            args@,
            in_scope || name_matches(callee, scopes, ScopeVariant::FnCall),
            scopes,
            known,
            prefix,
        ),
        Node::Property { key, value } => walk_nodes(
            value@,
            in_scope || name_matches(key, scopes, ScopeVariant::RecordEntries),
            scopes,
            known,
            prefix,
        ),
        Node::Text { value, lo, hi } => {
            if in_scope && any_matched(value@, known) && 1 <= lo && lo + 2 <= hi {
                seq![text_edit(value@, lo as int, hi as int, known, prefix)]
            } else {
                Seq::empty()
            }
        },
        Node::Group { children } => walk_nodes(children@, in_scope, scopes, known, prefix),
    }
}

/// The edits the walker records for a list of sibling nodes, in order.
pub open spec fn walk_nodes(
    ns: Seq<Node>,
    in_scope: bool,
    scopes: Seq<Scope>,
    known: Seq<Seq<char>>,
    prefix: Seq<char>,
) -> Seq<EditView>
    decreases ns,
{
    if ns.len() == 0 {
        Seq::empty()
    } else {
        walk_node(ns[0], in_scope, scopes, known, prefix) + walk_nodes(
            ns.subrange(1, ns.len() as int),
            in_scope,
            scopes,
            known,
            prefix,
        )
    }
}

/// Walking a list of nodes splits over concatenation.
pub proof fn lemma_walk_nodes_add(
    a: Seq<Node>,
    b: Seq<Node>,
    in_scope: bool,
    scopes: Seq<Scope>,
    known: Seq<Seq<char>>,
    prefix: Seq<char>,
)
    ensures
        walk_nodes(a + b, in_scope, scopes, known, prefix) == walk_nodes(
            a,
            in_scope,
            scopes,
            known,
            prefix,
        ) + walk_nodes(b, in_scope, scopes, known, prefix),
    decreases a.len(),
{
    if a.len() == 0 {
        assert(a + b =~= b);
        assert(walk_nodes(a, in_scope, scopes, known, prefix) + walk_nodes(
            b,
            in_scope,
            scopes,
            known,
            prefix,
        ) =~= walk_nodes(b, in_scope, scopes, known, prefix));
    } else {
        let t = a.subrange(1, a.len() as int);
        lemma_walk_nodes_add(t, b, in_scope, scopes, known, prefix);
        assert((a + b)[0] == a[0]);
        assert((a + b).subrange(1, (a + b).len() as int) =~= t + b);
        assert(walk_nodes(a + b, in_scope, scopes, known, prefix) =~= walk_node(
            a[0],
            in_scope,
            scopes,
            known,
            prefix,
        ) + (walk_nodes(t, in_scope, scopes, known, prefix) + walk_nodes(
            b,
            in_scope,
            scopes,
            known,
            prefix,
        )));
        assert(walk_nodes(a, in_scope, scopes, known, prefix) + walk_nodes(
            b,
            in_scope,
            scopes,
            known,
            prefix,
        ) =~= walk_node(a[0], in_scope, scopes, known, prefix) + (walk_nodes(
            t,
            in_scope,
            scopes,
            known,
            prefix,
        ) + walk_nodes(b, in_scope, scopes, known, prefix)));
    }
}

/// Law: accurate spans never fail. When the edits collected for a tree sit
/// in ascending, non-overlapping order and each records the original bytes
/// of its own range — which a parser with correct byte spans guarantees —
/// the patch step cannot report a mismatch: it yields the original buffer
/// with exactly the recorded ranges replaced.
pub proof fn lemma_accurate_spans_never_fail(
    roots: Seq<Node>,
    contents: Seq<u8>,
    scopes: Seq<Scope>,
    known: Seq<Seq<char>>,
    prefix: Seq<char>,
)
    requires
        crate::patch::edits_match_from(
            walk_nodes(roots, false, scopes, known, prefix),
            contents,
            0,
        ),
    ensures
        apply_all_spec(walk_nodes(roots, false, scopes, known, prefix), contents, 0) == Some(
            crate::patch::rebuilt_from(
                walk_nodes(roots, false, scopes, known, prefix),
                contents,
                0,
            ),
        ),
{
    crate::patch::lemma_apply_all_changes_only_the_spans(
        walk_nodes(roots, false, scopes, known, prefix),
        contents,
    );
}

/// The scoped rename pass over one file: the rewrite prefix, the known class
/// names, and the configured scope rules.
pub struct ApplyTailwindPrefix {
    pub prefix: String,
    pub class_names: Vec<Str>,
    pub scopes: Vec<Scope>,
}

impl ApplyTailwindPrefix {
    /// A pass with the given prefix, known class names and scope rules.
    pub fn new(prefix: String, class_names: Vec<Str>, scopes: Vec<Scope>) -> (r: Self)
        ensures
            r.prefix == prefix,
            r.class_names == class_names,
            r.scopes == scopes,
    {
        ApplyTailwindPrefix { prefix, class_names, scopes }
    }

    /// Whether an identifier opens a scope under the given syntactic role.
    pub fn starts_a_valid_scope(&self, ident: &str, variant: ScopeVariant) -> (r: bool)
        ensures
            r == config_matches(self.scopes@, ident@, variant),
    {
        let n = self.scopes.len();
        let mut i: usize = 0;
        while i < n
            invariant
                n == self.scopes@.len(),
                0 <= i <= n,
                forall|j: int| 0 <= j < i ==> !scope_matches(#[trigger] self.scopes@[j]@, ident@, variant),
            decreases n - i,
        {
            if self.scopes[i].matches(ident, variant) {
                return true;
            }
            i = i + 1;
        }
        false
    }

    /// Runs the class token rewriter with this pass's prefix and known class
    /// names; returns the rewritten list and whether anything changed.
    pub fn rewrite_class_list(&self, value: &str) -> (r: (String, bool))
        ensures
            r.0@ == rewrite_spec(value@, views_of(self.class_names@), self.prefix@),
            r.1 == any_matched(value@, views_of(self.class_names@)),
    {
        rewrite_class_list(self.prefix.as_str(), &self.class_names, value)
    }

    /// Collects, in source order, the edits for every string literal that
    /// sits in scope and is changed by the rewriter.
    pub fn collect_edits(&self, nodes: &Vec<Node>) -> (r: Vec<Replacement>)
        ensures
            edit_views(r@) == walk_nodes(
                nodes@,
                false,
                self.scopes@,
                views_of(self.class_names@),
                self.prefix@,
            ),
    {
        let mut out: Vec<Replacement> = Vec::new();
        proof {
            assert(edit_views(out@) =~= Seq::<EditView>::empty());
        }
        self.walk_vec(nodes, false, &mut out);
        proof {
            assert(edit_views(out@) =~= Seq::<EditView>::empty() + walk_nodes(
                nodes@,
                false,
                self.scopes@,
                views_of(self.class_names@),
                self.prefix@,
            ));
        }
        out
    }

    /// Walks sibling nodes left to right, appending their edits.
    fn walk_vec(&self, ns: &Vec<Node>, in_scope: bool, out: &mut Vec<Replacement>)
        ensures
            edit_views(final(out)@) == edit_views(old(out)@) + walk_nodes(
                ns@,
                in_scope,
                self.scopes@,
                views_of(self.class_names@),
                self.prefix@,
            ),
        decreases ns@,
    {
        let n = ns.len();
        let mut i: usize = 0;
        while i < n
            invariant
                n == ns@.len(),
                0 <= i <= n,
                edit_views(out@) == edit_views(old(out)@) + walk_nodes(
                    ns@.subrange(0, i as int),
                    in_scope,
                    self.scopes@,
                    views_of(self.class_names@),
                    self.prefix@,
                ),
            decreases n - i,
        {
            let ghost done = ns@.subrange(0, i as int);
            self.walk_node_exec(&ns[i], in_scope, out);
            proof {
                assert(ns@.subrange(0, i as int + 1) =~= done + seq![ns@[i as int]]);
                lemma_walk_nodes_add(
                    done,
                    seq![ns@[i as int]],
                    in_scope,
                    self.scopes@,
                    views_of(self.class_names@),
                    self.prefix@,
                );
                let single = seq![ns@[i as int]];
                assert(single.len() == 1);
                assert(single[0] == ns@[i as int]);
                assert(single.subrange(1, single.len() as int) =~= Seq::<Node>::empty());
                assert(walk_nodes(
                    single.subrange(1, single.len() as int),
                    in_scope,
                    self.scopes@,
                    views_of(self.class_names@),
                    self.prefix@,
                ) == Seq::<EditView>::empty());
                assert(walk_nodes(
                    single,
                    in_scope,
                    self.scopes@,
                    views_of(self.class_names@),
                    self.prefix@,
                ) =~= walk_node(
                    ns@[i as int],
                    in_scope,
                    self.scopes@,
                    views_of(self.class_names@),
                    self.prefix@,
                ));
            }
            i = i + 1;
        }
        proof {
            assert(ns@.subrange(0, n as int) =~= ns@);
        }
    }

    /// Walks one node, appending its edits.
    fn walk_node_exec(&self, n: &Node, in_scope: bool, out: &mut Vec<Replacement>)
        ensures
            edit_views(final(out)@) == edit_views(old(out)@) + walk_node(
                *n,
                in_scope,
                self.scopes@,
                views_of(self.class_names@),
                self.prefix@,
            ),
        decreases *n,
    {
        match n {
            Node::Attribute { name, value } => {
                let m = match name {
                    Some(nm) => self.starts_a_valid_scope(nm.as_str(), ScopeVariant::AttrNames),
                    None => false,
                };
                self.walk_vec(value, in_scope || m, out);
            },
            Node::Call { callee, args } => {
                let m = match callee {
                    Some(nm) => self.starts_a_valid_scope(nm.as_str(), ScopeVariant::FnCall),
                    None => false,
                };
                self.walk_vec(args, in_scope || m, out);
            },
            Node::Property { key, value } => {
                let m = match key {
                    Some(nm) => self.starts_a_valid_scope(
                        nm.as_str(),
                        ScopeVariant::RecordEntries,
                    ),
                    None => false,
                };
                self.walk_vec(value, in_scope || m, out);
            },
            Node::Text { value, lo, hi } => {
                if in_scope {
                    let (rew, changed) = self.rewrite_class_list(value.as_str());
                    if changed && *lo >= 1 && *hi >= 2 && *hi - 2 >= *lo {
                        let start = *lo;
                        let end = *hi - 3;
                        out.push(
                            Replacement::new(
                                start,
                                end,
                                value.as_str().as_bytes(),
                                rew.as_str().as_bytes(),
                            ),
                        );
                        proof {
                            assert(edit_views(out@) =~= edit_views(old(out)@) + seq![
                                text_edit(
                                    value@,
                                    *lo as int,
                                    *hi as int,
                                    views_of(self.class_names@),
                                    self.prefix@,
                                ),
                            ]);
                        }
                    } else {
                        proof {
                            assert(edit_views(out@) =~= edit_views(old(out)@) + Seq::<
                                EditView,
                            >::empty());
                        }
                    }
                } else {
                    proof {
                        assert(edit_views(out@) =~= edit_views(old(out)@) + Seq::<
                            EditView,
                        >::empty());
                    }
                }
            },
            Node::Group { children } => {
                self.walk_vec(children, in_scope, out);
            },
        }
    }

    /// The per-file core of the rename: collect the edits for a parsed tree;
    /// with no edits the file is left untouched; otherwise the patch engine
    /// produces the rewritten bytes, or reports the fatal mismatch.
    pub fn transform_source(&self, roots: &Vec<Node>, contents: Vec<u8>) -> (r: Result<
        Option<Vec<u8>>,
        PatchError,
    >)
        ensures
            ({
                let edits = walk_nodes(
                    roots@,
                    false,
                    self.scopes@,
                    views_of(self.class_names@),
                    self.prefix@,
                );
                match r {
                    Ok(out) => match out {
                        None => edits.len() == 0,
                        Some(bytes) => edits.len() > 0 && apply_all_spec(edits, contents@, 0)
                            == Some(bytes@),
                    },
                    Err(_) => edits.len() > 0 && apply_all_spec(edits, contents@, 0) is None,
                }
            }),
    {
        let edits = self.collect_edits(roots);
        if edits.len() == 0 {
            return Ok(None);
        }
        match Replacement::apply_all(&edits, contents) {
            Ok(out) => Ok(Some(out)),
            Err(e) => Err(e),
        }
    }
}

} // verus!
