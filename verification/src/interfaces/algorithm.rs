//! The common face of the search strategies.

use vstd::prelude::*;
use crate::keyboard_layout::logical_layout::LogicalLayout;

verus! {

/// A strategy that improves a layout for a corpus, working with n-grams of
/// `N` characters.  Whatever it does, it hands back a one-to-one assignment
/// of the characters that it was given.
pub trait Algorithm<const N: usize> {
    fn optimize(&self, layout: &mut LogicalLayout, text: &str, iterations: usize)
        requires
            old(layout).is_bijection(),
        ensures
            final(layout).is_bijection(),
            old(layout).is_exact() ==> final(layout).is_exact(),
            final(layout)@.len() == old(layout)@.len(),
            final(layout).alphabet() == old(layout).alphabet(),
    ;
}

} // verus!
