//! Sorts the dated entries of a plain-text ledger by date while leaving every
//! other byte of the file untouched: comments, non-dated constructs and the
//! blank-line spacing between entries survive the reordering, and a file whose
//! entries are already in order is returned byte for byte.

use vstd::prelude::*;

pub mod directive;
pub mod extract;
pub mod grouping;
pub mod laws;
pub mod order;
pub mod rebuild;
pub mod syntax;
pub mod text;

pub use directive::DatedDirective;
pub use directive::SortableGroup;
pub use order::is_sorted;
pub use rebuild::reconstruct_file;
pub use syntax::Formatter;

verus! {

/// Sorts a ledger text by date within groups separated by comments or
/// non-dated directives; text that needs no change is returned byte for
/// byte.
pub fn sort(content: &str) -> (r: String)
    ensures
        r@ == syntax::sort_spec(content@),
{
    let formatter = Formatter::new();
    formatter.sort(content)
}

} // verus!
