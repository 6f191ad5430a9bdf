//! Directive extraction: from the raw line spans and date tokens that the
//! syntax provider reports, build the ordered directive list with its
//! spacing metrics.
//!
//! A reported span is adjusted first: an end position at column 0 of a line
//! means "start of that line", so the end row is decremented (unless it is
//! already 0) and a trailing empty line is not absorbed into the span. The
//! spacing metrics then count the whitespace-only lines around each span:
//! the trailing count looks forward from the span's end, the leading count
//! looks forward from the previous span's end, and the characteristic
//! spacing trusts a middle directive's spacing only where it is consistent
//! on both sides.

use vstd::prelude::*;

use crate::directive::DatedDirective;
use crate::directive::DirectiveModel;
use crate::directive::dirs_ordered;
use crate::directive::dirs_view;
use crate::text::is_blank_line;
use crate::text::line_is_blank;
use crate::text::seqs_view;

verus! {

/// A line span as the syntax provider reports it: start row, end row and
/// the column of the end position, all 0-indexed.
pub struct RawSpan {
    pub start_row: usize,
    pub end_row: usize,
    pub end_col: usize,
}

/// The last line of a span once an end position at column 0 has been pulled
/// back onto the previous line.
pub open spec fn adjusted_end(sp: RawSpan) -> int {
    if sp.end_col == 0 && sp.end_row > 0 {
        sp.end_row - 1
    } else {
        sp.end_row as int
    }
}

/// What the extractor needs of the reported spans: one date per span, every
/// adjusted span well-formed and inside the file, and the spans strictly
/// increasing in document order.
pub open spec fn spans_wf(spans: Seq<RawSpan>, dates: Seq<Seq<char>>, nlines: int) -> bool {
    &&& spans.len() == dates.len()
    &&& forall|i: int|
        0 <= i < spans.len() ==> (#[trigger] spans[i]).start_row <= adjusted_end(spans[i]) < nlines
    &&& forall|i: int|
        0 <= i < spans.len() - 1 ==> adjusted_end(#[trigger] spans[i]) < spans[i + 1].start_row
}

pub fn check_spans(spans: &Vec<RawSpan>, dates: &Vec<Vec<char>>, nlines: usize) -> (r: bool)
    ensures
        r == spans_wf(spans@, seqs_view(*dates), nlines as int),
{
    if spans.len() != dates.len() {
        proof {
            assert(seqs_view(*dates).len() == dates@.len());
        }
        return false;
    }
    let n = spans.len();
    let mut i: usize = 0;
    while i < n
        invariant
            0 <= i <= n == spans@.len(),
            spans@.len() == seqs_view(*dates).len(),
            forall|k: int|
                0 <= k < i ==> (#[trigger] spans@[k]).start_row <= adjusted_end(spans@[k])
                    < nlines as int,
            forall|k: int|
                0 <= k < i - 1 ==> adjusted_end(#[trigger] spans@[k]) < spans@[k + 1].start_row,
        decreases n - i,
    {
        let sp = &spans[i];
        let end: usize = if sp.end_col == 0 && sp.end_row > 0 {
            sp.end_row - 1
        } else {
            sp.end_row
        };
        if !(sp.start_row <= end && end < nlines) {
            return false;
        }
        if i > 0 {
            let prev = &spans[i - 1];
            let prev_end: usize = if prev.end_col == 0 && prev.end_row > 0 {
                prev.end_row - 1
            } else {
                prev.end_row
            };
            if !(prev_end < sp.start_row) {
                return false;
            }
        }
        i += 1;
    }
    true
}

/// The number of consecutive whitespace-only lines starting at `from`, and
/// strictly before `to`.
pub open spec fn blank_run(lines: Seq<Seq<char>>, from: int, to: int) -> int
    decreases to - from,
{
    if from < to && is_blank_line(lines[from]) {
        1 + blank_run(lines, from + 1, to)
    } else {
        0
    }
}

pub proof fn lemma_blank_run_bounds(lines: Seq<Seq<char>>, from: int, to: int)
    ensures
        0 <= blank_run(lines, from, to),
        from <= to ==> blank_run(lines, from, to) <= to - from,
    decreases to - from,
{
    if from < to && is_blank_line(lines[from]) {
        lemma_blank_run_bounds(lines, from + 1, to);
    }
}

pub fn count_blank_run(lines: &Vec<Vec<char>>, from: usize, to: usize) -> (r: usize)
    requires
        from <= to <= lines@.len(),
    ensures
        r as int == blank_run(seqs_view(*lines), from as int, to as int),
        r <= to - from,
{
    let mut j: usize = from;
    while j < to && line_is_blank(&lines[j])
        invariant
            from <= j <= to <= lines@.len(),
            blank_run(seqs_view(*lines), from as int, to as int) == (j - from) + blank_run(
                seqs_view(*lines),
                j as int,
                to as int,
            ),
        decreases to - j,
    {
        proof {
            assert(seqs_view(*lines)[j as int] == lines@[j as int]@);
        }
        j += 1;
    }
    proof {
        lemma_blank_run_bounds(seqs_view(*lines), j as int, to as int);
        if j < to {
            assert(!is_blank_line(seqs_view(*lines)[j as int]));
        }
    }
    j - from
}

pub open spec fn spec_min(a: int, b: int) -> int {
    if a < b {
        a
    } else {
        b
    }
}

/// The directive that span `i` gives rise to.
pub open spec fn directive_model_at(
    lines: Seq<Seq<char>>,
    spans: Seq<RawSpan>,
    dates: Seq<Seq<char>>,
    i: int,
) -> DirectiveModel {
    let s = spans[i].start_row as int;
    let e = adjusted_end(spans[i]);
    let next_start = if i + 1 < spans.len() {
        spans[i + 1].start_row as int
    } else {
        lines.len() as int
    };
    let prev_end = if i > 0 {
        adjusted_end(spans[i - 1])
    } else {
        0
    };
    let trailing = blank_run(lines, e + 1, next_start);
    let leading = if i > 0 {
        blank_run(lines, prev_end + 1, s)
    } else {
        0
    };
    DirectiveModel {
        start_line: s,
        end_line: e,
        date: dates[i],
        text: lines.subrange(s, e + 1),
        blank_lines: if i == 0 {
            trailing
        } else if i == spans.len() - 1 {
            leading
        } else {
            spec_min(trailing, leading)
        },
        trailing_blank_lines: trailing,
        leading_blank_lines: leading,
        original_index: i,
    }
}

/// The full ordered directive list.
pub open spec fn extract_spec(
    lines: Seq<Seq<char>>,
    spans: Seq<RawSpan>,
    dates: Seq<Seq<char>>,
) -> Seq<DirectiveModel> {
    Seq::new(spans.len(), |i: int| directive_model_at(lines, spans, dates, i))
}

/// The verbatim lines of `[s, e]`, inclusive on both ends.
fn copy_line_range(lines: &Vec<Vec<char>>, s: usize, e: usize) -> (r: Vec<Vec<char>>)
    requires
        s <= e < lines@.len(),
    ensures
        seqs_view(r) == seqs_view(*lines).subrange(s as int, e + 1),
{
    let nl = lines.len();
    let mut r: Vec<Vec<char>> = Vec::new();
    let mut i: usize = s;
    while i <= e
        invariant
            s <= i <= e + 1,
            e < nl == lines@.len(),
            r@.len() == i - s,
            forall|k: int| 0 <= k < i - s ==> #[trigger] r@[k]@ == lines@[s + k]@,
        decreases e + 1 - i,
    {
        let line = crate::text::clone_chars(&lines[i]);
        r.push(line);
        i += 1;
    }
    proof {
        assert(seqs_view(r) =~= seqs_view(*lines).subrange(s as int, e + 1));
    }
    r
}

/// Builds the ordered directive list from well-formed spans and dates.
pub fn extract_directives(
    lines: &Vec<Vec<char>>,
    spans: &Vec<RawSpan>,
    dates: &Vec<Vec<char>>,
) -> (r: Vec<DatedDirective>)
    requires
        spans_wf(spans@, seqs_view(*dates), lines@.len() as int),
    ensures
        dirs_view(r) == extract_spec(seqs_view(*lines), spans@, seqs_view(*dates)),
{
    let n = spans.len();
    let nlines = lines.len();
    let mut r: Vec<DatedDirective> = Vec::new();
    let mut i: usize = 0;
    while i < n
        invariant
            0 <= i <= n == spans@.len(),
            nlines == lines@.len(),
            spans_wf(spans@, seqs_view(*dates), lines@.len() as int),
            r@.len() == i,
            forall|k: int|
                0 <= k < i ==> #[trigger] r@[k].model() == directive_model_at(
                    seqs_view(*lines),
                    spans@,
                    seqs_view(*dates),
                    k,
                ),
        decreases n - i,
    {
        let sp = &spans[i];
        let s = sp.start_row;
        let e: usize = if sp.end_col == 0 && sp.end_row > 0 {
            sp.end_row - 1
        } else {
            sp.end_row
        };
        let next_start: usize = if i + 1 < n {
            spans[i + 1].start_row
        } else {
            nlines
        };
        proof {
            assert(adjusted_end(spans@[i as int]) == e as int);
            if i + 1 < n {
                assert(adjusted_end(spans@[i as int]) < spans@[i as int + 1].start_row);
                assert(spans@[i as int + 1].start_row <= adjusted_end(spans@[i as int + 1])
                    < nlines as int);
            }
        }
        let trailing = count_blank_run(lines, e + 1, next_start);
        let leading: usize = if i > 0 {
            let prev = &spans[i - 1];
            let prev_end: usize = if prev.end_col == 0 && prev.end_row > 0 {
                prev.end_row - 1
            } else {
                prev.end_row
            };
            proof {
                assert(adjusted_end(spans@[i as int - 1]) == prev_end as int);
                assert(prev_end < s);
            }
            count_blank_run(lines, prev_end + 1, s)
        } else {
            0
        };
        let blank: usize = if i == 0 {
            trailing
        } else if i == n - 1 {
            leading
        } else if trailing < leading {
            trailing
        } else {
            leading
        };
        let text = copy_line_range(lines, s, e);
        let date = crate::text::clone_chars(&dates[i]);
        proof {
            assert(seqs_view(*dates)[i as int] == dates@[i as int]@);
        }
        let d = DatedDirective {
            start_line: s,
            end_line: e,
            date,
            text,
            blank_lines: blank,
            trailing_blank_lines: trailing,
            leading_blank_lines: leading,
            original_index: i,
        };
        r.push(d);
        i += 1;
    }
    proof {
        assert(dirs_view(r) =~= extract_spec(seqs_view(*lines), spans@, seqs_view(*dates)));
    }
    r
}

/// Well-formed spans yield an ordered directive list.
pub proof fn lemma_extract_ordered(
    lines: Seq<Seq<char>>,
    spans: Seq<RawSpan>,
    dates: Seq<Seq<char>>,
)
    requires
        spans_wf(spans, dates, lines.len() as int),
    ensures
        dirs_ordered(extract_spec(lines, spans, dates), lines.len() as int),
{
    let dirs = extract_spec(lines, spans, dates);
    assert forall|i: int| 0 <= i < dirs.len() implies 0 <= (#[trigger] dirs[i]).start_line
        <= dirs[i].end_line < lines.len() as int by {
        assert(spans[i].start_row <= adjusted_end(spans[i]) < lines.len() as int);
    }
    assert forall|i: int| 0 <= i < dirs.len() - 1 implies (#[trigger] dirs[i]).end_line < dirs[i
        + 1].start_line by {
        assert(adjusted_end(spans[i]) < spans[i + 1].start_row);
    }
    assert forall|i: int| 0 <= i < dirs.len() implies 0 <= (
    #[trigger] dirs[i]).trailing_blank_lines <= lines.len() as int by {
        let e = adjusted_end(spans[i]);
        let next_start = if i + 1 < spans.len() {
            spans[i + 1].start_row as int
        } else {
            lines.len() as int
        };
        if i + 1 < spans.len() {
            assert(spans[i + 1].start_row <= adjusted_end(spans[i + 1]) < lines.len() as int);
        }
        lemma_blank_run_bounds(lines, e + 1, next_start);
    }
}

} // verus!
