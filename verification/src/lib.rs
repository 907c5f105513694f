//! Scoped rename engine for style-class identifiers.
//!
//! The crate renames a known set of class-name tokens inside scoped locations
//! of source files while leaving every byte outside those locations untouched.
//! It is organised as a pipeline of pure components: a scope rule language
//! (`scope`), a class token rewriter (`rewrite`), a scoped syntax walker over a
//! plain model of the syntax tree (`walker`), and a byte-precise patch engine
//! (`patch`). Parsing source text, collecting class names from a stylesheet and
//! walking the file system are left to callers.

use vstd::prelude::*;

pub mod collect;
pub mod patch;
pub mod rewrite;
pub mod scope;
pub mod text;
pub mod walker;

verus! {

/// An owned string fragment: a class name, a scope pattern, or an identifier.
#[derive(Debug, Clone, PartialEq)]
pub struct Str(pub String);

impl View for Str {
    type V = Seq<char>;

    open spec fn view(&self) -> Seq<char> {
        self.0@
    }
}

impl Str {
    pub fn as_str(&self) -> (r: &str)
        ensures
            r@ == self@,
    {
        self.0.as_str()
    }
}

impl From<&str> for Str {
    fn from(s: &str) -> (r: Str) {
        Str(s.to_owned())
    }
}

impl vstd::std_specs::convert::FromSpecImpl<&str> for Str {
    open spec fn obeys_from_spec() -> bool {
        // A `String` with a prescribed view cannot be written down in
        // specification code, so `from` carries no contract; verified code
        // constructs `Str` values directly instead.
        false
    }

    open spec fn from_spec(s: &str) -> Str {
        arbitrary()
    }
}

} // verus!
