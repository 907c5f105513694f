//! The known class set.
//!
//! Class names come from the class selectors of a stylesheet. A selector
//! name that carries pseudo-class syntax (a `:` inside the name) contributes
//! only the text after its final `:`; any other name contributes as it is.
//! Reading the stylesheet and walking its selectors is the caller's job;
//! this module holds the collected names and applies that convention.

use crate::text::after_last;
use crate::text::chars_of;
use crate::text::lemma_after_last_at;
use crate::rewrite::views_of;
use crate::Str;
use vstd::prelude::*;

verus! {

/// The class name a selector fragment contributes: the text after the final
/// `:`, or the whole text when it has none.
pub open spec fn selector_class_of(t: Seq<char>) -> Seq<char> {
    t.subrange(after_last(t, ':'), t.len() as int)
}

/// The class names collected from a stylesheet's selectors, in the order
/// they were seen.
pub struct ClassNamesCollector {
    pub class_names: Vec<Str>,
}

impl ClassNamesCollector {
    /// An empty collection.
    pub fn new() -> (r: Self)
        ensures
            r.class_names@.len() == 0,
    {
        ClassNamesCollector { class_names: Vec::new() }
    }

    /// Records the class name contributed by one class selector fragment.
    pub fn push_selector(&mut self, text: &str)
        ensures
            views_of(final(self).class_names@) == views_of(old(self).class_names@).push(
                selector_class_of(text@),
            ),
    {
        let cv = chars_of(text);
        let n = cv.len();
        // find the position just past the last ':'
        let mut j: usize = n;
        while j > 0 && cv[j - 1] != ':'
            invariant
                cv@ == text@,
                n == text@.len(),
                0 <= j <= n,
                forall|t: int| j <= t < n ==> text@[t] != ':',
            decreases j,
        {
            j = j - 1;
        }
        proof {
            lemma_after_last_at(text@, ':', j as int);
        }
        let cn = text.substring_char(j, n);
        self.class_names.push(Str(cn.to_owned()));
        proof {
            assert(views_of(self.class_names@) =~= views_of(old(self).class_names@).push(
                selector_class_of(text@),
            ));
        }
    }
}

} // verus!
