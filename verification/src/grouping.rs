//! Boundary-aware grouping: the ordered directive list is split into maximal
//! runs not interrupted by a boundary line.
//!
//! A boundary is the line of a top-level construct without a date field.
//! Scanning in document order, a group is closed exactly where some boundary
//! line lies strictly between the end of the last directive taken and the
//! start of the next one; every group therefore holds at least one
//! directive, and directives separated by a boundary never share a group.

use vstd::prelude::*;

use crate::directive::DatedDirective;
use crate::directive::DirectiveModel;
use crate::directive::SortableGroup;
use crate::directive::dirs_view;
use crate::directive::flatten_groups;
use crate::directive::groups_view;

verus! {

/// Whether some boundary line lies strictly between line `e` and line `s`.
pub open spec fn has_boundary_between(bounds: Seq<usize>, e: int, s: int) -> bool {
    exists|k: int| 0 <= k < bounds.len() && e < #[trigger] bounds[k] as int && (bounds[k] as int) < s
}

pub fn check_boundary_between(bounds: &Vec<usize>, e: usize, s: usize) -> (r: bool)
    ensures
        r == has_boundary_between(bounds@, e as int, s as int),
{
    let mut k: usize = 0;
    while k < bounds.len()
        invariant
            0 <= k <= bounds@.len(),
            forall|m: int| 0 <= m < k ==> !(e < #[trigger] bounds@[m] as int && (bounds@[m] as int) < s),
        decreases bounds@.len() - k,
    {
        let b = bounds[k];
        if e < b && b < s {
            return true;
        }
        k += 1;
    }
    false
}

/// Whether the pair of consecutive directives `i`, `i + 1` is split by a
/// boundary.
pub open spec fn split_after(dirs: Seq<DirectiveModel>, bounds: Seq<usize>, i: int) -> bool {
    has_boundary_between(bounds, dirs[i].end_line, dirs[i + 1].start_line)
}

/// The end (exclusive) of the maximal unsplit run starting at directive `i`.
pub open spec fn run_end(dirs: Seq<DirectiveModel>, bounds: Seq<usize>, i: int) -> int
    decreases dirs.len() - i,
{
    if i + 1 >= dirs.len() {
        dirs.len() as int
    } else if split_after(dirs, bounds, i) {
        i + 1
    } else {
        run_end(dirs, bounds, i + 1)
    }
}

pub proof fn lemma_run_end_bounds(dirs: Seq<DirectiveModel>, bounds: Seq<usize>, i: int)
    requires
        0 <= i < dirs.len(),
    ensures
        i < run_end(dirs, bounds, i) <= dirs.len(),
    decreases dirs.len() - i,
{
    if i + 1 < dirs.len() && !split_after(dirs, bounds, i) {
        lemma_run_end_bounds(dirs, bounds, i + 1);
    }
}

/// The groups of the directive tail starting at position `i`.
pub open spec fn groups_from(dirs: Seq<DirectiveModel>, bounds: Seq<usize>, i: int) -> Seq<
    Seq<DirectiveModel>,
>
    decreases dirs.len() - i,
    via groups_from_dec
{
    if i < 0 || i >= dirs.len() {
        seq![]
    } else {
        let j = run_end(dirs, bounds, i);
        seq![dirs.subrange(i, j)] + groups_from(dirs, bounds, j)
    }
}

#[via_fn]
proof fn groups_from_dec(dirs: Seq<DirectiveModel>, bounds: Seq<usize>, i: int) {
    if 0 <= i && i < dirs.len() {
        lemma_run_end_bounds(dirs, bounds, i);
    }
}

/// The maximal boundary-free runs of the whole directive list, in order.
pub open spec fn group_spec(dirs: Seq<DirectiveModel>, bounds: Seq<usize>) -> Seq<
    Seq<DirectiveModel>,
> {
    groups_from(dirs, bounds, 0)
}

/// The groups partition the directive list: flattened back, they give the
/// tail they were built from.
pub proof fn lemma_groups_flatten(dirs: Seq<DirectiveModel>, bounds: Seq<usize>, i: int)
    requires
        0 <= i <= dirs.len(),
    ensures
        flatten_groups(groups_from(dirs, bounds, i)) == dirs.skip(i),
    decreases dirs.len() - i,
{
    if i >= dirs.len() {
        assert(flatten_groups(groups_from(dirs, bounds, i)) =~= dirs.skip(i));
    } else {
        let j = run_end(dirs, bounds, i);
        lemma_run_end_bounds(dirs, bounds, i);
        lemma_groups_flatten(dirs, bounds, j);
        let gs = groups_from(dirs, bounds, i);
        assert(gs.drop_first() =~= groups_from(dirs, bounds, j));
        assert(flatten_groups(gs) == dirs.subrange(i, j) + flatten_groups(
            groups_from(dirs, bounds, j),
        ));
        assert(dirs.subrange(i, j) + dirs.skip(j) =~= dirs.skip(i));
    }
}

/// Every group holds at least one directive.
pub proof fn lemma_groups_nonempty(dirs: Seq<DirectiveModel>, bounds: Seq<usize>, i: int)
    ensures
        forall|g: int|
            0 <= g < groups_from(dirs, bounds, i).len() ==> (#[trigger] groups_from(
                dirs,
                bounds,
                i,
            )[g]).len() >= 1,
    decreases dirs.len() - i,
{
    if 0 <= i && i < dirs.len() {
        let j = run_end(dirs, bounds, i);
        lemma_run_end_bounds(dirs, bounds, i);
        lemma_groups_nonempty(dirs, bounds, j);
        let gs = groups_from(dirs, bounds, i);
        assert forall|g: int| 0 <= g < gs.len() implies (#[trigger] gs[g]).len() >= 1 by {
            if g > 0 {
                assert(gs[g] == groups_from(dirs, bounds, j)[g - 1]);
            }
        }
    }
}

/// Splits the ordered directive list into maximal runs uninterrupted by a
/// boundary.
pub fn identify_sortable_groups(directives: &Vec<DatedDirective>, boundaries: &Vec<usize>) -> (r:
    Vec<SortableGroup>)
    ensures
        groups_view(r) == group_spec(dirs_view(*directives), boundaries@),
{
    let ghost dv = dirs_view(*directives);
    let ghost bv = boundaries@;
    let n = directives.len();
    let mut r: Vec<SortableGroup> = Vec::new();
    let mut i: usize = 0;
    proof {
        assert(groups_view(r) + groups_from(dv, bv, 0) =~= groups_from(dv, bv, 0));
    }
    while i < n
        invariant
            0 <= i <= n == directives@.len(),
            dv == dirs_view(*directives),
            bv == boundaries@,
            groups_from(dv, bv, 0) == groups_view(r) + groups_from(dv, bv, i as int),
        decreases n - i,
    {
        let ghost prev = groups_view(r);
        let mut j: usize = i + 1;
        while j < n && !check_boundary_between(
            boundaries,
            directives[j - 1].end_line,
            directives[j].start_line,
        )
            invariant
                i < j <= n == directives@.len(),
                dv == dirs_view(*directives),
                bv == boundaries@,
                run_end(dv, bv, i as int) == run_end(dv, bv, j - 1),
            decreases n - j,
        {
            proof {
                assert(dv[j - 1].end_line == directives@[j - 1].end_line as int);
                assert(dv[j as int].start_line == directives@[j as int].start_line as int);
                assert(run_end(dv, bv, j - 1) == run_end(dv, bv, j as int));
            }
            j += 1;
        }
        proof {
            if j < n {
                assert(dv[j - 1].end_line == directives@[j - 1].end_line as int);
                assert(dv[j as int].start_line == directives@[j as int].start_line as int);
                assert(run_end(dv, bv, j - 1) == j);
            } else {
                assert(run_end(dv, bv, j - 1) == j);
            }
            assert(run_end(dv, bv, i as int) == j);
        }
        let mut grp: Vec<DatedDirective> = Vec::new();
        let mut k: usize = i;
        while k < j
            invariant
                i <= k <= j <= directives@.len(),
                dv == dirs_view(*directives),
                grp@.len() == k - i,
                forall|m: int| 0 <= m < k - i ==> #[trigger] grp@[m].model() == dv[i + m],
            decreases j - k,
        {
            let d = directives[k].duplicate();
            grp.push(d);
            k += 1;
        }
        proof {
            assert(dirs_view(grp) =~= dv.subrange(i as int, j as int));
        }
        let ghost gview = dirs_view(grp);
        let ghost old_i = i as int;
        r.push(SortableGroup { directives: grp });
        i = j;
        proof {
            assert(groups_from(dv, bv, old_i) == seq![gview] + groups_from(dv, bv, i as int));
            assert(groups_view(r) =~= prev + seq![gview]);
            assert((prev + seq![gview]) + groups_from(dv, bv, i as int) =~= prev + (seq![gview]
                + groups_from(dv, bv, i as int)));
        }
    }
    proof {
        assert(groups_from(dv, bv, i as int) =~= Seq::<Seq<DirectiveModel>>::empty());
        assert(groups_view(r) + groups_from(dv, bv, i as int) =~= groups_view(r));
    }
    r
}

} // verus!
