//! Reconstruction: the final text is rebuilt from the original lines and the
//! sorted groups.
//!
//! Every line of every directive's span is owned by its group, and so is —
//! for every directive except the last one of its group — the run of
//! whitespace-only lines it trails; the last directive's trailing blanks are
//! spacing that belongs to whatever follows the group and are copied through
//! untouched. At the original position of each group's first directive the
//! group's sorted texts are emitted, joined by computed separators; every
//! other non-owned line is copied verbatim and owned lines are skipped.
//!
//! The separator between directives A and B that are adjacent after sorting
//! is A's original trailing blank count when B followed A directly in the
//! original document, and otherwise the larger of their characteristic
//! spacings.

use vstd::prelude::*;

use crate::directive::DatedDirective;
use crate::directive::DirectiveModel;
use crate::directive::SortableGroup;
use crate::directive::dirs_ordered;
use crate::directive::dirs_view;
use crate::directive::flatten_groups;
use crate::directive::groups_view;
use crate::order::sort_group;
use crate::order::sort_group_spec;
use crate::text::seqs_view;
use crate::text::split_lines_spec;
use crate::text::join_lines_spec;

verus! {

pub open spec fn spec_max(a: int, b: int) -> int {
    if a > b {
        a
    } else {
        b
    }
}

/// The number of blank lines emitted between directives `a` and `b` when `b`
/// directly follows `a` in the sorted output.
pub open spec fn separator(a: DirectiveModel, b: DirectiveModel) -> int {
    if b.original_index == a.original_index + 1 {
        a.trailing_blank_lines
    } else {
        spec_max(a.blank_lines, b.blank_lines)
    }
}

/// `n` empty lines.
pub open spec fn blank_lines_seq(n: int) -> Seq<Seq<char>> {
    if n <= 0 {
        seq![]
    } else {
        Seq::new(n as nat, |i: int| Seq::<char>::empty())
    }
}

/// The lines a sorted group contributes to the output: the directives'
/// verbatim texts, joined by the computed separators.
pub open spec fn emit_sorted(sg: Seq<DirectiveModel>) -> Seq<Seq<char>>
    decreases sg.len(),
{
    if sg.len() == 0 {
        seq![]
    } else if sg.len() == 1 {
        sg[0].text
    } else {
        emit_sorted(sg.drop_last()) + blank_lines_seq(separator(sg[sg.len() - 2], sg.last()))
            + sg.last().text
    }
}

/// Emits one sorted group.
pub fn emit_group(sorted: &Vec<DatedDirective>) -> (r: Vec<Vec<char>>)
    ensures
        seqs_view(r) == emit_sorted(dirs_view(*sorted)),
{
    let ghost dv = dirs_view(*sorted);
    let n = sorted.len();
    let mut r: Vec<Vec<char>> = Vec::new();
    let mut i: usize = 0;
    proof {
        assert(seqs_view(r) =~= emit_sorted(dv.take(0)));
    }
    while i < n
        invariant
            0 <= i <= n == sorted@.len(),
            dv == dirs_view(*sorted),
            seqs_view(r) == emit_sorted(dv.take(i as int)),
        decreases n - i,
    {
        let ghost before = seqs_view(r);
        if i > 0 {
            let prev = &sorted[i - 1];
            let cur = &sorted[i];
            let sep: usize = if cur.original_index >= 1 && cur.original_index - 1
                == prev.original_index {
                prev.trailing_blank_lines
            } else if prev.blank_lines > cur.blank_lines {
                prev.blank_lines
            } else {
                cur.blank_lines
            };
            proof {
                assert(dv[i - 1] == sorted@[i - 1].model());
                assert(dv[i as int] == sorted@[i as int].model());
                assert(sep as int == separator(dv[i - 1], dv[i as int]));
            }
            let mut b: usize = 0;
            while b < sep
                invariant
                    0 <= b <= sep,
                    seqs_view(r) == before + blank_lines_seq(b as int),
                decreases sep - b,
            {
                let ghost prev_view = seqs_view(r);
                let empty_line: Vec<char> = Vec::new();
                r.push(empty_line);
                b += 1;
                proof {
                    assert(seqs_view(r) =~= prev_view.push(Seq::<char>::empty()));
                    assert(prev_view.push(Seq::<char>::empty()) =~= before + blank_lines_seq(
                        b as int,
                    ));
                }
            }
        }
        let ghost mid = seqs_view(r);
        let text = &sorted[i].text;
        let mut k: usize = 0;
        while k < text.len()
            invariant
                0 <= k <= text@.len(),
                seqs_view(r) == mid + seqs_view(*text).take(k as int),
            decreases text@.len() - k,
        {
            let ghost prev_view = seqs_view(r);
            let line = crate::text::clone_chars(&text[k]);
            r.push(line);
            k += 1;
            proof {
                assert(seqs_view(r) =~= prev_view.push(text@[k - 1]@));
                assert(seqs_view(*text)[k - 1] == text@[k - 1]@);
                assert(prev_view.push(text@[k - 1]@) =~= mid + seqs_view(*text).take(k as int));
            }
        }
        proof {
            assert(seqs_view(*text).take(text@.len() as int) =~= seqs_view(*text));
            assert(dv[i as int].text == seqs_view(sorted@[i as int].text));
            let tk1 = dv.take(i + 1);
            if i == 0 {
                assert(tk1.len() == 1);
                assert(emit_sorted(tk1) == tk1[0].text);
                assert(seqs_view(r) =~= emit_sorted(tk1));
            } else {
                assert(tk1.drop_last() =~= dv.take(i as int));
                assert(tk1[tk1.len() - 2] == dv[i - 1]);
                assert(tk1.last() == dv[i as int]);
                assert(emit_sorted(tk1) == emit_sorted(dv.take(i as int)) + blank_lines_seq(
                    separator(dv[i - 1], dv[i as int]),
                ) + dv[i as int].text);
                assert(seqs_view(r) =~= emit_sorted(tk1));
            }
        }
        i += 1;
    }
    proof {
        assert(dv.take(i as int) =~= dv);
    }
    r
}

/// Whether directive `i` of `grp` owns line `idx`: the line lies in its
/// span, or — except for the group's last directive — in its trailing run
/// of blank lines.
pub open spec fn line_owned_by(grp: Seq<DirectiveModel>, i: int, idx: int) -> bool {
    (grp[i].start_line <= idx <= grp[i].end_line) || (i < grp.len() - 1 && grp[i].end_line < idx
        <= grp[i].end_line + grp[i].trailing_blank_lines)
}

pub open spec fn owned_in_group(grp: Seq<DirectiveModel>, idx: int) -> bool {
    exists|i: int| 0 <= i < grp.len() && line_owned_by(grp, i, idx)
}

/// Whether any group owns line `idx`.
pub open spec fn owned_line(gs: Seq<Seq<DirectiveModel>>, idx: int) -> bool {
    exists|g: int| 0 <= g < gs.len() && owned_in_group(#[trigger] gs[g], idx)
}

/// Whether some group's first directive starts at line `idx`.
pub open spec fn is_group_start(gs: Seq<Seq<DirectiveModel>>, idx: int) -> bool {
    exists|g: int| 0 <= g < gs.len() && gs[g].len() > 0 && (#[trigger] gs[g])[0].start_line == idx
}

/// The group whose first directive starts at line `idx`; meaningful only
/// under `is_group_start`, and unique under `groups_wf`.
pub open spec fn group_index_at(gs: Seq<Seq<DirectiveModel>>, idx: int) -> int {
    choose|g: int| 0 <= g < gs.len() && gs[g].len() > 0 && (#[trigger] gs[g])[0].start_line == idx
}

/// What reconstruction needs of its groups: every group holds at least one
/// directive, and the flattened directive list is ordered inside the file.
pub open spec fn groups_wf(gs: Seq<Seq<DirectiveModel>>, nlines: int) -> bool {
    &&& forall|g: int| 0 <= g < gs.len() ==> (#[trigger] gs[g]).len() >= 1
    &&& dirs_ordered(flatten_groups(gs), nlines)
}

/// The rebuilt line stream, scanning from line `idx`: at a group's first
/// start line the group's sorted emission appears, non-owned lines are
/// copied verbatim, and owned lines are skipped.
pub open spec fn rebuild_lines(
    lines: Seq<Seq<char>>,
    gs: Seq<Seq<DirectiveModel>>,
    idx: int,
) -> Seq<Seq<char>>
    decreases lines.len() - idx,
{
    if idx < 0 || idx >= lines.len() {
        seq![]
    } else {
        let emitted = if is_group_start(gs, idx) {
            emit_sorted(sort_group_spec(gs[group_index_at(gs, idx)]))
        } else {
            seq![]
        };
        let copied = if !owned_line(gs, idx) {
            seq![lines[idx]]
        } else {
            seq![]
        };
        emitted + copied + rebuild_lines(lines, gs, idx + 1)
    }
}

pub proof fn lemma_flatten_push(s: Seq<Seq<DirectiveModel>>, x: Seq<DirectiveModel>)
    ensures
        flatten_groups(s.push(x)) == flatten_groups(s) + x,
    decreases s.len(),
{
    if s.len() == 0 {
        assert(s.push(x).drop_first() =~= Seq::<Seq<DirectiveModel>>::empty());
        assert(flatten_groups(s.push(x)) == s.push(x)[0] + flatten_groups(s.push(x).drop_first()));
        assert(s.push(x)[0] == x);
        assert(flatten_groups(Seq::<Seq<DirectiveModel>>::empty())
            == Seq::<DirectiveModel>::empty());
        assert(flatten_groups(s) == Seq::<DirectiveModel>::empty());
        assert(x + Seq::<DirectiveModel>::empty() =~= flatten_groups(s) + x);
    } else {
        assert(s.push(x).drop_first() =~= s.drop_first().push(x));
        lemma_flatten_push(s.drop_first(), x);
        assert(flatten_groups(s.push(x)) == s[0] + (flatten_groups(s.drop_first()) + x));
        assert(s[0] + (flatten_groups(s.drop_first()) + x) =~= (s[0] + flatten_groups(
            s.drop_first(),
        )) + x);
    }
}

/// Offset of group `g` inside the flattened directive list.
pub open spec fn group_offset(gs: Seq<Seq<DirectiveModel>>, g: int) -> int {
    flatten_groups(gs.take(g)).len() as int
}

pub proof fn lemma_group_offset_next(gs: Seq<Seq<DirectiveModel>>, g: int)
    requires
        0 <= g < gs.len(),
    ensures
        group_offset(gs, g + 1) == group_offset(gs, g) + gs[g].len(),
{
    assert(gs.take(g + 1) =~= gs.take(g).push(gs[g]));
    lemma_flatten_push(gs.take(g), gs[g]);
}

pub proof fn lemma_flatten_split(gs: Seq<Seq<DirectiveModel>>, m: int)
    requires
        0 <= m <= gs.len(),
    ensures
        flatten_groups(gs) == flatten_groups(gs.take(m)) + flatten_groups(gs.skip(m)),
    decreases m,
{
    if m == 0 {
        assert(gs.take(0) =~= Seq::<Seq<DirectiveModel>>::empty());
        assert(gs.skip(0) =~= gs);
        assert(flatten_groups(gs.take(0)) + flatten_groups(gs) =~= flatten_groups(gs));
    } else {
        let df = gs.drop_first();
        lemma_flatten_split(df, m - 1);
        assert(gs.take(m).drop_first() =~= df.take(m - 1));
        assert(gs.take(m).len() > 0);
        assert(gs.take(m)[0] == gs[0]);
        assert(flatten_groups(gs.take(m)) == gs[0] + flatten_groups(df.take(m - 1)));
        assert(gs.skip(m) =~= df.skip(m - 1));
        assert(flatten_groups(gs) == gs[0] + flatten_groups(df));
        assert((gs[0] + flatten_groups(df.take(m - 1))) + flatten_groups(df.skip(m - 1)) =~= gs[0]
            + (flatten_groups(df.take(m - 1)) + flatten_groups(df.skip(m - 1))));
    }
}

/// Each directive of each group sits at its offset in the flattened list.
pub proof fn lemma_flatten_pos(gs: Seq<Seq<DirectiveModel>>, g: int, i: int)
    requires
        0 <= g < gs.len(),
        0 <= i < gs[g].len(),
    ensures
        0 <= group_offset(gs, g) + i < flatten_groups(gs).len(),
        flatten_groups(gs)[group_offset(gs, g) + i] == gs[g][i],
        group_offset(gs, g) >= 0,
{
    lemma_group_offset_next(gs, g);
    lemma_flatten_split(gs, g);
    lemma_flatten_split(gs, g + 1);
    assert(gs.take(g + 1) =~= gs.take(g).push(gs[g]));
    lemma_flatten_push(gs.take(g), gs[g]);
    let f = flatten_groups(gs);
    let pre = flatten_groups(gs.take(g));
    assert(f == (pre + gs[g]) + flatten_groups(gs.skip(g + 1)));
    assert(f[pre.len() + i] == gs[g][i]);
}

pub proof fn lemma_group_offset_monotone(gs: Seq<Seq<DirectiveModel>>, a: int, b: int)
    requires
        0 <= a <= b <= gs.len(),
        forall|g: int| 0 <= g < gs.len() ==> (#[trigger] gs[g]).len() >= 1,
    ensures
        group_offset(gs, a) + (b - a) <= group_offset(gs, b),
    decreases b - a,
{
    if a < b {
        lemma_group_offset_next(gs, a);
        lemma_group_offset_monotone(gs, a + 1, b);
    }
}

/// Under an ordered flattened list, every earlier directive ends strictly
/// before every later one starts.
pub proof fn lemma_dirs_chain(f: Seq<DirectiveModel>, nlines: int, p: int, q: int)
    requires
        dirs_ordered(f, nlines),
        0 <= p < q < f.len(),
    ensures
        f[p].end_line < f[q].start_line,
    decreases q - p,
{
    if q > p + 1 {
        lemma_dirs_chain(f, nlines, p, q - 1);
    }
}

/// Distinct groups start on distinct lines, in increasing order.
pub proof fn lemma_group_starts_increasing(gs: Seq<Seq<DirectiveModel>>, nlines: int)
    requires
        groups_wf(gs, nlines),
    ensures
        forall|g1: int, g2: int|
            0 <= g1 < g2 < gs.len() ==> (#[trigger] gs[g1])[0].start_line < (
            #[trigger] gs[g2])[0].start_line,
{
    let f = flatten_groups(gs);
    assert forall|g1: int, g2: int| 0 <= g1 < g2 < gs.len() implies (#[trigger] gs[g1])[0].start_line
        < (#[trigger] gs[g2])[0].start_line by {
        lemma_flatten_pos(gs, g1, 0);
        lemma_flatten_pos(gs, g2, 0);
        lemma_group_offset_monotone(gs, g1, g2);
        let p1 = group_offset(gs, g1);
        let p2 = group_offset(gs, g2);
        lemma_dirs_chain(f, nlines, p1, p2);
        assert(f[p1].start_line <= f[p1].end_line);
    }
}

/// Span bounds for every directive of every group, from the flattened
/// ordering.
pub proof fn lemma_groups_wf_bounds(gs: Seq<Seq<DirectiveModel>>, nlines: int)
    requires
        groups_wf(gs, nlines),
    ensures
        forall|g: int, i: int|
            0 <= g < gs.len() && 0 <= i < gs[g].len() ==> {
                let d = #[trigger] gs[g][i];
                0 <= d.start_line <= d.end_line < nlines && 0 <= d.trailing_blank_lines <= nlines
            },
{
    assert forall|g: int, i: int| 0 <= g < gs.len() && 0 <= i < gs[g].len() implies {
        let d = #[trigger] gs[g][i];
        0 <= d.start_line <= d.end_line < nlines && 0 <= d.trailing_blank_lines <= nlines
    } by {
        lemma_flatten_pos(gs, g, i);
        let f = flatten_groups(gs);
        let p = group_offset(gs, g) + i;
        assert(0 <= f[p].start_line <= f[p].end_line < nlines);
        assert(0 <= f[p].trailing_blank_lines <= nlines);
    }
}

pub open spec fn ends_with_newline(s: Seq<char>) -> bool {
    s.len() > 0 && s.last() == '\n'
}

pub open spec fn starts_with_newline(s: Seq<char>) -> bool {
    s.len() > 0 && s[0] == '\n'
}

pub open spec fn drop_leading_newlines(s: Seq<char>) -> Seq<char>
    decreases s.len(),
{
    if s.len() > 0 && s[0] == '\n' {
        drop_leading_newlines(s.drop_first())
    } else {
        s
    }
}

/// The rebuilt text: lines rebuilt and joined, then the trailing-newline
/// state of the input restored, and any blank line introduced at position 0
/// stripped when the input did not start with one.
pub open spec fn reconstruct_spec(content: Seq<char>, gs: Seq<Seq<DirectiveModel>>) -> Seq<char> {
    let lines = split_lines_spec(content);
    let joined = join_lines_spec(rebuild_lines(lines, gs, 0));
    let with_nl = if ends_with_newline(content) && !ends_with_newline(joined) {
        joined.push('\n')
    } else {
        joined
    };
    if !starts_with_newline(content) {
        drop_leading_newlines(with_nl)
    } else {
        with_nl
    }
}

pub proof fn lemma_drop_leading_at(s: Seq<char>, k: int)
    requires
        0 <= k <= s.len(),
        forall|m: int| 0 <= m < k ==> s[m] == '\n',
        k == s.len() || s[k] != '\n',
    ensures
        drop_leading_newlines(s) == s.skip(k),
    decreases s.len(),
{
    if s.len() > 0 && s[0] == '\n' {
        assert(k > 0);
        lemma_drop_leading_at(s.drop_first(), k - 1);
        assert(s.drop_first().skip(k - 1) =~= s.skip(k));
    } else {
        assert(k == 0);
        assert(s.skip(0) =~= s);
    }
}

/// Lines owned by a group earlier than `g`.
pub open spec fn owned_before(gs: Seq<Seq<DirectiveModel>>, g: int, idx: int) -> bool {
    exists|g2: int| 0 <= g2 < g && owned_in_group(#[trigger] gs[g2], idx)
}

/// Lines owned by a directive of `grp` earlier than `i`.
pub open spec fn owned_by_prefix(grp: Seq<DirectiveModel>, i: int, idx: int) -> bool {
    exists|i2: int| 0 <= i2 < i && #[trigger] line_owned_by(grp, i2, idx)
}

/// Sets every entry of `[a, b)` to true.
fn mark_range(owned: &mut Vec<bool>, a: usize, b: usize)
    requires
        a <= b <= old(owned)@.len(),
    ensures
        final(owned)@.len() == old(owned)@.len(),
        forall|k: int|
            0 <= k < final(owned)@.len() ==> final(owned)@[k] == (old(owned)@[k] || (a <= k < b)),
{
    let mut i: usize = a;
    while i < b
        invariant
            a <= i <= b <= owned@.len(),
            owned@.len() == old(owned)@.len(),
            forall|k: int|
                0 <= k < owned@.len() ==> owned@[k] == (old(owned)@[k] || (a <= k < i)),
        decreases b - i,
    {
        owned.set(i, true);
        i += 1;
    }
}

/// Computes, for each line of the file, whether some group owns it.
fn mark_owned(groups: &Vec<SortableGroup>, n: usize) -> (r: Vec<bool>)
    requires
        forall|g: int, i: int|
            0 <= g < groups_view(*groups).len() && 0 <= i < groups_view(*groups)[g].len() ==> {
                let d = #[trigger] groups_view(*groups)[g][i];
                0 <= d.start_line <= d.end_line < n && 0 <= d.trailing_blank_lines <= n
            },
    ensures
        r@.len() == n,
        forall|k: int| 0 <= k < n ==> r@[k] == owned_line(groups_view(*groups), k),
{
    let ghost gv = groups_view(*groups);
    let mut owned: Vec<bool> = Vec::new();
    while owned.len() < n
        invariant
            owned@.len() <= n,
            forall|k: int| 0 <= k < owned@.len() ==> !(#[trigger] owned@[k]),
        decreases n - owned@.len(),
    {
        owned.push(false);
    }
    let mut g: usize = 0;
    while g < groups.len()
        invariant
            0 <= g <= groups@.len(),
            gv == groups_view(*groups),
            owned@.len() == n,
            forall|gi: int, i: int|
                0 <= gi < gv.len() && 0 <= i < gv[gi].len() ==> {
                    let d = #[trigger] gv[gi][i];
                    0 <= d.start_line <= d.end_line < n && 0 <= d.trailing_blank_lines <= n
                },
            forall|k: int| 0 <= k < n ==> owned@[k] == owned_before(gv, g as int, k),
        decreases groups@.len() - g,
    {
        let glen = groups[g].directives.len();
        proof {
            assert(gv[g as int] == groups@[g as int].model());
            assert(gv[g as int].len() == glen);
        }
        let mut i: usize = 0;
        proof {
            assert forall|k: int| 0 <= k < n implies owned@[k] == (owned_before(gv, g as int, k)
                || owned_by_prefix(gv[g as int], 0, k)) by {
                assert(!owned_by_prefix(gv[g as int], 0, k));
            }
        }
        while i < glen
            invariant
                0 <= i <= glen,
                g < groups@.len(),
                glen == groups@[g as int].directives@.len(),
                gv == groups_view(*groups),
                owned@.len() == n,
                forall|gi: int, ii: int|
                    0 <= gi < gv.len() && 0 <= ii < gv[gi].len() ==> {
                        let d = #[trigger] gv[gi][ii];
                        0 <= d.start_line <= d.end_line < n && 0 <= d.trailing_blank_lines <= n
                    },
                forall|k: int|
                    0 <= k < n ==> owned@[k] == (owned_before(gv, g as int, k) || owned_by_prefix(
                        gv[g as int],
                        i as int,
                        k,
                    )),
            decreases glen - i,
        {
            let ghost grp = gv[g as int];
            let start = groups[g].directives[i].start_line;
            let end = groups[g].directives[i].end_line;
            let trailing = groups[g].directives[i].trailing_blank_lines;
            proof {
                assert(grp == groups@[g as int].model());
                assert(grp[i as int] == groups@[g as int].directives@[i as int].model());
                assert(grp[i as int].start_line == start as int);
                assert(grp[i as int].end_line == end as int);
                assert(grp[i as int].trailing_blank_lines == trailing as int);
                assert(0 <= grp[i as int].start_line <= grp[i as int].end_line < n);
            }
            let ghost before = owned@;
            mark_range(&mut owned, start, end + 1);
            let last_in_group = i + 1 >= glen;
            let mut hi: usize = end + 1;
            if !last_in_group {
                let avail = n - 1 - end;
                let t = if trailing > avail {
                    avail
                } else {
                    trailing
                };
                hi = end + 1 + t;
                mark_range(&mut owned, end + 1, hi);
            }
            proof {
                assert forall|k: int| 0 <= k < n implies owned@[k] == (owned_before(gv, g as int, k)
                    || owned_by_prefix(grp, i + 1, k)) by {
                    let d = grp[i as int];
                    // what the two marks added is exactly what directive i owns
                    let added = (d.start_line <= k <= d.end_line) || (!last_in_group && d.end_line
                        < k <= d.end_line + d.trailing_blank_lines);
                    if !last_in_group {
                        assert(owned@[k] == (before[k] || (start as int <= k < end + 1) || (end + 1
                            <= k < hi as int)));
                    } else {
                        assert(owned@[k] == (before[k] || (start as int <= k < end + 1)));
                    }
                    assert(added == ((start as int <= k < end + 1) || (!last_in_group && end + 1
                        <= k < hi as int)));
                    assert(added == line_owned_by(grp, i as int, k));
                    if owned_by_prefix(grp, i + 1, k) {
                        let i2 = choose|i2: int|
                            0 <= i2 < i + 1 && #[trigger] line_owned_by(grp, i2, k);
                        if i2 < i {
                            assert(owned_by_prefix(grp, i as int, k));
                        }
                    }
                    if owned_by_prefix(grp, i as int, k) {
                        let i2 = choose|i2: int|
                            0 <= i2 < i && #[trigger] line_owned_by(grp, i2, k);
                        assert(line_owned_by(grp, i2, k));
                        assert(owned_by_prefix(grp, i + 1, k));
                    }
                    if line_owned_by(grp, i as int, k) {
                        assert(owned_by_prefix(grp, i + 1, k));
                    }
                }
            }
            i += 1;
        }
        proof {
            assert forall|k: int| 0 <= k < n implies owned@[k] == owned_before(gv, g + 1, k) by {
                let grp = gv[g as int];
                if owned_by_prefix(grp, glen as int, k) {
                    assert(owned_in_group(grp, k));
                }
                if owned_in_group(grp, k) {
                    let i2 = choose|i2: int| 0 <= i2 < grp.len() && line_owned_by(grp, i2, k);
                    assert(line_owned_by(grp, i2, k));
                    assert(owned_by_prefix(grp, glen as int, k));
                }
                if owned_before(gv, g as int, k) || owned_in_group(grp, k) {
                    if owned_in_group(grp, k) {
                        assert(0 <= g < g + 1 && owned_in_group(gv[g as int], k));
                        assert(owned_before(gv, g + 1, k));
                    } else {
                        let g2 = choose|g2: int|
                            0 <= g2 < g && owned_in_group(#[trigger] gv[g2], k);
                        assert(owned_in_group(gv[g2], k));
                        assert(owned_before(gv, g + 1, k));
                    }
                }
                if owned_before(gv, g + 1, k) {
                    let g2 = choose|g2: int|
                        0 <= g2 < g + 1 && owned_in_group(#[trigger] gv[g2], k);
                    if g2 < g {
                        assert(owned_before(gv, g as int, k));
                    }
                }
            }
        }
        g += 1;
    }
    proof {
        assert forall|k: int| 0 <= k < n implies owned@[k] == owned_line(gv, k) by {
            if owned_before(gv, groups@.len() as int, k) {
                let g2 = choose|g2: int|
                    0 <= g2 < groups@.len() && owned_in_group(#[trigger] gv[g2], k);
                assert(owned_in_group(gv[g2], k));
            }
            if owned_line(gv, k) {
                let g2 = choose|g2: int| 0 <= g2 < gv.len() && owned_in_group(#[trigger] gv[g2], k);
                assert(owned_before(gv, groups@.len() as int, k));
            }
        }
    }
    owned
}

/// The group whose first directive starts at line `idx`, if any.
fn find_group_at(groups: &Vec<SortableGroup>, idx: usize) -> (r: Option<usize>)
    requires
        forall|g: int|
            0 <= g < groups_view(*groups).len() ==> (#[trigger] groups_view(*groups)[g]).len() >= 1,
    ensures
        match r {
            Some(g) => g < groups@.len() && groups_view(*groups)[g as int][0].start_line
                == idx as int,
            None => !is_group_start(groups_view(*groups), idx as int),
        },
{
    let ghost gv = groups_view(*groups);
    let mut g: usize = 0;
    while g < groups.len()
        invariant
            0 <= g <= groups@.len(),
            gv == groups_view(*groups),
            forall|g2: int|
                0 <= g2 < gv.len() ==> (#[trigger] gv[g2]).len() >= 1,
            forall|g2: int| 0 <= g2 < g ==> (#[trigger] gv[g2])[0].start_line != idx as int,
        decreases groups@.len() - g,
    {
        proof {
            assert(gv[g as int] == groups@[g as int].model());
            assert(gv[g as int].len() >= 1);
        }
        if groups[g].directives[0].start_line == idx {
            proof {
                assert(gv[g as int][0] == groups@[g as int].directives@[0].model());
            }
            return Some(g);
        }
        proof {
            assert(gv[g as int][0] == groups@[g as int].directives@[0].model());
        }
        g += 1;
    }
    None
}

/// Appends a copy of every line of `more`.
fn append_lines(out: &mut Vec<Vec<char>>, more: &Vec<Vec<char>>)
    ensures
        seqs_view(*final(out)) == seqs_view(*old(out)) + seqs_view(*more),
{
    let mut k: usize = 0;
    while k < more.len()
        invariant
            0 <= k <= more@.len(),
            seqs_view(*out) == seqs_view(*old(out)) + seqs_view(*more).take(k as int),
        decreases more@.len() - k,
    {
        let ghost prev = seqs_view(*out);
        let line = crate::text::clone_chars(&more[k]);
        out.push(line);
        k += 1;
        proof {
            assert(seqs_view(*out) =~= prev.push(more@[k - 1]@));
            assert(seqs_view(*more)[k - 1] == more@[k - 1]@);
            assert(prev.push(more@[k - 1]@) =~= seqs_view(*old(out)) + seqs_view(*more).take(
                k as int,
            ));
        }
    }
    proof {
        assert(seqs_view(*more).take(more@.len() as int) =~= seqs_view(*more));
    }
}

/// Rebuilds the whole text from the original content and its sortable
/// groups: each group is stably sorted by date and emitted at its original
/// position, every line outside the groups is copied verbatim, and the
/// file's leading and trailing newline state is preserved.
pub fn reconstruct_file(content: &str, groups: &Vec<SortableGroup>) -> (r: String)
    requires
        groups_wf(groups_view(*groups), split_lines_spec(content@).len() as int),
    ensures
        r@ == reconstruct_spec(content@, groups_view(*groups)),
{
    let ghost gv = groups_view(*groups);
    let chars = crate::text::chars_of(content);
    let lines = crate::text::split_lines(&chars);
    let ghost lv = seqs_view(lines);
    let n = lines.len();
    proof {
        assert(lv == split_lines_spec(content@));
        lemma_groups_wf_bounds(gv, n as int);
    }
    let owned = mark_owned(groups, n);
    let mut out: Vec<Vec<char>> = Vec::new();
    let mut idx: usize = 0;
    proof {
        assert(seqs_view(out) + rebuild_lines(lv, gv, 0) =~= rebuild_lines(lv, gv, 0));
    }
    while idx < n
        invariant
            0 <= idx <= n == lines@.len(),
            gv == groups_view(*groups),
            lv == seqs_view(lines),
            groups_wf(gv, n as int),
            owned@.len() == n,
            forall|k: int| 0 <= k < n ==> owned@[k] == owned_line(gv, k),
            rebuild_lines(lv, gv, 0) == seqs_view(out) + rebuild_lines(lv, gv, idx as int),
        decreases n - idx,
    {
        let ghost prev = seqs_view(out);
        let ghost em_spec: Seq<Seq<char>> = if is_group_start(gv, idx as int) {
            emit_sorted(sort_group_spec(gv[group_index_at(gv, idx as int)]))
        } else {
            seq![]
        };
        let found = find_group_at(groups, idx);
        match found {
            Some(g) => {
                let sorted = sort_group(&groups[g]);
                let em = emit_group(&sorted);
                append_lines(&mut out, &em);
                proof {
                    assert(gv[g as int] == groups@[g as int].model());
                    assert(gv[g as int].len() >= 1);
                    assert(is_group_start(gv, idx as int));
                    let gc = group_index_at(gv, idx as int);
                    assert(0 <= gc < gv.len() && gv[gc].len() > 0 && gv[gc][0].start_line
                        == idx as int);
                    lemma_group_starts_increasing(gv, n as int);
                    assert(gc == g as int);
                    assert(seqs_view(em) == emit_sorted(sort_group_spec(gv[g as int])));
                    assert(seqs_view(out) == prev + em_spec);
                }
            },
            None => {
                proof {
                    assert(seqs_view(out) =~= prev + em_spec);
                }
            },
        }
        let ghost mid = seqs_view(out);
        let ghost cp_spec: Seq<Seq<char>> = if !owned_line(gv, idx as int) {
            seq![lv[idx as int]]
        } else {
            seq![]
        };
        if !owned[idx] {
            let line = crate::text::clone_chars(&lines[idx]);
            out.push(line);
            proof {
                assert(lv[idx as int] == lines@[idx as int]@);
                assert(seqs_view(out) =~= mid + cp_spec);
            }
        } else {
            proof {
                assert(seqs_view(out) =~= mid + cp_spec);
            }
        }
        idx += 1;
        proof {
            assert(rebuild_lines(lv, gv, idx - 1) == em_spec + cp_spec + rebuild_lines(
                lv,
                gv,
                idx as int,
            ));
            assert(seqs_view(out) + rebuild_lines(lv, gv, idx as int) =~= prev + (em_spec + cp_spec
                + rebuild_lines(lv, gv, idx as int)));
        }
    }
    proof {
        assert(rebuild_lines(lv, gv, idx as int) =~= Seq::<Seq<char>>::empty());
        assert(seqs_view(out) + rebuild_lines(lv, gv, idx as int) =~= seqs_view(out));
        assert(seqs_view(out) == rebuild_lines(lv, gv, 0));
    }
    let mut result = crate::text::join_lines(&out);
    let content_ends_nl = chars.len() > 0 && chars[chars.len() - 1] == '\n';
    let result_ends_nl = result.len() > 0 && result[result.len() - 1] == '\n';
    proof {
        assert(content_ends_nl == ends_with_newline(content@));
        assert(result_ends_nl == ends_with_newline(result@));
    }
    if content_ends_nl && !result_ends_nl {
        result.push('\n');
    }
    let ghost with_nl = result@;
    let content_starts_nl = chars.len() > 0 && chars[0] == '\n';
    proof {
        assert(content_starts_nl == starts_with_newline(content@));
    }
    if !content_starts_nl {
        let mut k: usize = 0;
        while k < result.len() && result[k] == '\n'
            invariant
                0 <= k <= result@.len(),
                forall|m: int| 0 <= m < k ==> result@[m] == '\n',
            decreases result@.len() - k,
        {
            k += 1;
        }
        let stripped = crate::text::sub_chars(&result, k, result.len());
        proof {
            lemma_drop_leading_at(result@, k as int);
            assert(result@.skip(k as int) =~= result@.subrange(k as int, result@.len() as int));
        }
        return crate::text::chars_to_string(&stripped);
    }
    crate::text::chars_to_string(&result)
}

} // verus!
