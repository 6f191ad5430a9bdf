//! The data model: a dated directive with its spacing metrics, and a
//! sortable group of such directives.
//!
//! A directive records the inclusive line span it occupies in the original
//! file, its date key (compared as raw text), the verbatim source lines of
//! the span, the counts of whitespace-only lines observed directly after and
//! before it, its characteristic spacing, and its position in the original
//! document order.

use vstd::prelude::*;

use crate::text::seqs_view;

verus! {

/// The mathematical value of a directive.
pub ghost struct DirectiveModel {
    pub start_line: int,
    pub end_line: int,
    pub date: Seq<char>,
    pub text: Seq<Seq<char>>,
    pub blank_lines: int,
    pub trailing_blank_lines: int,
    pub leading_blank_lines: int,
    pub original_index: int,
}

/// A top-level construct that carries a date field, together with its
/// spacing metrics.
pub struct DatedDirective {
    /// First line of the construct, 0-indexed.
    pub start_line: usize,
    /// Last line of the construct, 0-indexed, inclusive.
    pub end_line: usize,
    /// The date token, compared as raw text.
    pub date: Vec<char>,
    /// The verbatim source lines of the span.
    pub text: Vec<Vec<char>>,
    /// Characteristic spacing: the blank-line count this directive is deemed
    /// to intrinsically want around it.
    pub blank_lines: usize,
    /// Whitespace-only lines directly after the span in the original file.
    pub trailing_blank_lines: usize,
    /// Whitespace-only lines directly after the previous directive's span;
    /// zero for the first directive.
    pub leading_blank_lines: usize,
    /// Position in the original document order, assigned before any sorting.
    pub original_index: usize,
}

impl DatedDirective {
    pub open spec fn model(self) -> DirectiveModel {
        DirectiveModel {
            start_line: self.start_line as int,
            end_line: self.end_line as int,
            date: self.date@,
            text: seqs_view(self.text),
            blank_lines: self.blank_lines as int,
            trailing_blank_lines: self.trailing_blank_lines as int,
            leading_blank_lines: self.leading_blank_lines as int,
            original_index: self.original_index as int,
        }
    }

    /// A fresh copy with the same value.
    pub fn duplicate(&self) -> (r: DatedDirective)
        ensures
            r.model() == self.model(),
    {
        let mut text: Vec<Vec<char>> = Vec::new();
        let mut i: usize = 0;
        while i < self.text.len()
            invariant
                0 <= i <= self.text@.len(),
                text@.len() == i,
                forall|k: int| 0 <= k < i ==> #[trigger] text@[k]@ == self.text@[k]@,
            decreases self.text@.len() - i,
        {
            let line = crate::text::clone_chars(&self.text[i]);
            text.push(line);
            i += 1;
        }
        proof {
            assert(seqs_view(text) =~= seqs_view(self.text));
        }
        let r = DatedDirective {
            start_line: self.start_line,
            end_line: self.end_line,
            date: crate::text::clone_chars(&self.date),
            text,
            blank_lines: self.blank_lines,
            trailing_blank_lines: self.trailing_blank_lines,
            leading_blank_lines: self.leading_blank_lines,
            original_index: self.original_index,
        };
        r
    }
}

/// A vector of directives, viewed as a sequence of models.
pub open spec fn dirs_view(v: Vec<DatedDirective>) -> Seq<DirectiveModel> {
    Seq::new(v@.len() as nat, |i: int| v@[i].model())
}

/// A maximal run of dated directives uninterrupted by a boundary.
pub struct SortableGroup {
    pub directives: Vec<DatedDirective>,
}

impl SortableGroup {
    pub open spec fn model(self) -> Seq<DirectiveModel> {
        dirs_view(self.directives)
    }
}

/// A vector of groups, viewed as a sequence of sequences of models.
pub open spec fn groups_view(v: Vec<SortableGroup>) -> Seq<Seq<DirectiveModel>> {
    Seq::new(v@.len() as nat, |i: int| v@[i].model())
}

/// The directive models of all groups, in group order: the original document
/// order when the groups partition the document.
pub open spec fn flatten_groups(gs: Seq<Seq<DirectiveModel>>) -> Seq<DirectiveModel>
    decreases gs.len(),
{
    if gs.len() == 0 {
        seq![]
    } else {
        gs[0] + flatten_groups(gs.drop_first())
    }
}

/// Line spans are ordered and lie inside the file: within each directive the
/// span is well-formed, and each directive ends strictly before the next one
/// starts.
pub open spec fn dirs_ordered(dirs: Seq<DirectiveModel>, nlines: int) -> bool {
    &&& forall|i: int|
        0 <= i < dirs.len() ==> 0 <= (#[trigger] dirs[i]).start_line <= dirs[i].end_line < nlines
    &&& forall|i: int|
        0 <= i < dirs.len() - 1 ==> (#[trigger] dirs[i]).end_line < dirs[i + 1].start_line
    &&& forall|i: int|
        0 <= i < dirs.len() ==> 0 <= (#[trigger] dirs[i]).trailing_blank_lines <= nlines
}

} // verus!
