//! The laws of the sort: idempotence of the sort engine, preservation of
//! already-sorted input, stability, boundary respect, and the two spacing
//! rules, each proved against the specifications that the executable
//! functions are verified against.

use vstd::prelude::*;

use crate::directive::DirectiveModel;
use crate::directive::flatten_groups;
use crate::extract::RawSpan;
use crate::extract::extract_spec;
use crate::grouping::group_spec;
use crate::grouping::groups_from;
use crate::grouping::lemma_groups_flatten;
use crate::grouping::lemma_run_end_bounds;
use crate::grouping::run_end;
use crate::grouping::split_after;
use crate::order::all_sorted;
use crate::order::insert_sorted;
use crate::order::lemma_insert_sorted_len;
use crate::order::lemma_insert_sorted_multiset;
use crate::order::lemma_sort_group_len;
use crate::order::lemma_sort_group_multiset;
use crate::order::lemma_sort_group_sorted;
use crate::order::lemma_sort_of_sorted;
use crate::order::sort_group_spec;
use crate::rebuild::blank_lines_seq;
use crate::rebuild::emit_sorted;
use crate::rebuild::separator;
use crate::rebuild::spec_max;
use crate::syntax::sort_core_spec;
use crate::text::lemma_lex_lt_asymmetric;
use crate::text::lemma_lex_lt_total;
use crate::text::lemma_lex_lt_transitive;
use crate::text::lex_lt;
use crate::text::split_lines_spec;

verus! {

/// Sorting a group twice gives the same result as sorting it once: the
/// engine behind the whole operation is idempotent.
pub proof fn lemma_sort_engine_idempotent(s: Seq<DirectiveModel>)
    ensures
        sort_group_spec(sort_group_spec(s)) == sort_group_spec(s),
{
    lemma_sort_group_sorted(s);
    lemma_sort_of_sorted(sort_group_spec(s));
}

/// When every sortable group of the extracted directives is already
/// non-decreasing by date, the operation returns its input unchanged, byte
/// for byte — including the degenerate inputs with no dated directive at
/// all.
pub proof fn lemma_noop_preservation(
    content: Seq<char>,
    spans: Seq<RawSpan>,
    dates: Seq<Seq<char>>,
    bounds: Seq<usize>,
)
    requires
        all_sorted(
            group_spec(extract_spec(split_lines_spec(content), spans, dates), bounds),
        ),
    ensures
        sort_core_spec(content, spans, dates, bounds) == content,
{
}

/// The strict order that a stable sort of distinctly-indexed directives
/// realizes: by date first, by original position among equal dates.
pub open spec fn key_lt(a: DirectiveModel, b: DirectiveModel) -> bool {
    lex_lt(a.date, b.date) || (a.date == b.date && a.original_index < b.original_index)
}

pub open spec fn sorted_strict(s: Seq<DirectiveModel>) -> bool {
    forall|p: int, q: int| 0 <= p < q < s.len() ==> key_lt(s[p], s[q])
}

pub proof fn lemma_key_lt_trans(a: DirectiveModel, b: DirectiveModel, c: DirectiveModel)
    requires
        key_lt(a, b),
        key_lt(b, c),
    ensures
        key_lt(a, c),
{
    if lex_lt(a.date, b.date) && lex_lt(b.date, c.date) {
        lemma_lex_lt_transitive(a.date, b.date, c.date);
    }
}

proof fn lemma_insert_sorted_stable(t: Seq<DirectiveModel>, d: DirectiveModel)
    requires
        sorted_strict(t),
        forall|k: int| 0 <= k < t.len() ==> (#[trigger] t[k]).original_index < d.original_index,
    ensures
        sorted_strict(insert_sorted(t, d)),
    decreases t.len(),
{
    broadcast use vstd::seq_lib::group_to_multiset_ensures;

    let r = insert_sorted(t, d);
    if t.len() == 0 {
    } else if lex_lt(d.date, t.last().date) {
        let dl = t.drop_last();
        assert(sorted_strict(dl));
        lemma_insert_sorted_stable(dl, d);
        let q = insert_sorted(dl, d);
        lemma_insert_sorted_len(dl, d);
        lemma_insert_sorted_multiset(dl, d);
        assert forall|p: int, u: int| 0 <= p < u < r.len() implies key_lt(r[p], r[u]) by {
            if u < r.len() - 1 {
                assert(r[p] == q[p] && r[u] == q[u]);
            } else {
                assert(r[u] == t.last());
                assert(r[p] == q[p]);
                // q[p] is either d or some element of dl
                assert(q.to_multiset().contains(q[p])) by {
                    assert(q.to_multiset().count(q[p]) > 0);
                }
                assert(dl.to_multiset().insert(d).contains(q[p]));
                if q[p] == d {
                    assert(key_lt(d, t.last()));
                } else {
                    assert(dl.to_multiset().contains(q[p]));
                    assert(dl.contains(q[p]));
                    let k = choose|k: int| 0 <= k < dl.len() && dl[k] == q[p];
                    assert(t[k] == q[p]);
                    assert(key_lt(t[k], t[t.len() - 1]));
                }
            }
        }
    } else {
        assert forall|p: int, u: int| 0 <= p < u < r.len() implies key_lt(r[p], r[u]) by {
            if u == r.len() - 1 {
                assert(r[u] == d);
                assert(r[p] == t[p]);
                lemma_lex_lt_total(t.last().date, d.date);
                assert(key_lt(t.last(), d));
                if p < t.len() - 1 {
                    assert(key_lt(t[p], t.last()));
                    lemma_key_lt_trans(t[p], t.last(), d);
                }
            } else {
                assert(r[p] == t[p] && r[u] == t[u]);
            }
        }
    }
}

/// Stability: sorting a group whose directives carry strictly increasing
/// original positions yields a permutation ordered by date and, among equal
/// dates, by original position — directives sharing a date keep their
/// original relative order.
pub proof fn lemma_stability(s: Seq<DirectiveModel>)
    requires
        forall|p: int, q: int|
            0 <= p < q < s.len() ==> (#[trigger] s[p]).original_index < (
            #[trigger] s[q]).original_index,
    ensures
        sort_group_spec(s).to_multiset() == s.to_multiset(),
        sort_group_spec(s).len() == s.len(),
        forall|p: int, q: int|
            0 <= p < q < sort_group_spec(s).len() ==> ((#[trigger] sort_group_spec(s)[p]).date == (
            #[trigger] sort_group_spec(s)[q]).date ==> sort_group_spec(s)[p].original_index
                < sort_group_spec(s)[q].original_index),
    decreases s.len(),
{
    lemma_sort_group_multiset(s);
    lemma_sort_group_len(s);
    lemma_sort_group_stable(s);
    let r = sort_group_spec(s);
    assert forall|p: int, q: int| 0 <= p < q < r.len() implies ((#[trigger] r[p]).date == (
    #[trigger] r[q]).date ==> r[p].original_index < r[q].original_index) by {
        assert(key_lt(r[p], r[q]));
        if r[p].date == r[q].date {
            lemma_lex_lt_asymmetric(r[p].date, r[p].date);
        }
    }
}

proof fn lemma_sort_group_stable(s: Seq<DirectiveModel>)
    requires
        forall|p: int, q: int|
            0 <= p < q < s.len() ==> (#[trigger] s[p]).original_index < (
            #[trigger] s[q]).original_index,
    ensures
        sorted_strict(sort_group_spec(s)),
    decreases s.len(),
{
    broadcast use vstd::seq_lib::group_to_multiset_ensures;

    if s.len() > 0 {
        let dl = s.drop_last();
        lemma_sort_group_stable(dl);
        let t = sort_group_spec(dl);
        lemma_sort_group_multiset(dl);
        lemma_sort_group_len(dl);
        assert forall|k: int| 0 <= k < t.len() implies (#[trigger] t[k]).original_index
            < s.last().original_index by {
            assert(t.to_multiset().contains(t[k])) by {
                assert(t.to_multiset().count(t[k]) > 0);
            }
            assert(dl.to_multiset().contains(t[k]));
            assert(dl.contains(t[k]));
            let m = choose|m: int| 0 <= m < dl.len() && dl[m] == t[k];
            assert(s[m] == t[k]);
            assert(s[m].original_index < s[s.len() - 1].original_index);
        }
        lemma_insert_sorted_stable(t, s.last());
    }
}

/// Every group, stably sorted.
pub open spec fn sorted_groups(gs: Seq<Seq<DirectiveModel>>) -> Seq<Seq<DirectiveModel>> {
    Seq::new(gs.len(), |g: int| sort_group_spec(gs[g]))
}

proof fn lemma_run_end_stops(dirs: Seq<DirectiveModel>, bounds: Seq<usize>, i: int, k: int)
    requires
        0 <= i <= k < dirs.len() - 1,
        split_after(dirs, bounds, k),
    ensures
        run_end(dirs, bounds, i) <= k + 1,
    decreases k - i,
{
    if i < k && !split_after(dirs, bounds, i) {
        lemma_run_end_stops(dirs, bounds, i + 1, k);
    }
}

proof fn lemma_cut(dirs: Seq<DirectiveModel>, bounds: Seq<usize>, i: int, k: int)
    requires
        0 <= k < dirs.len() - 1,
        split_after(dirs, bounds, k),
        0 <= i <= k + 1,
    ensures
        exists|m: int|
            0 <= m <= groups_from(dirs, bounds, i).len() && #[trigger] flatten_groups(
                groups_from(dirs, bounds, i).take(m),
            ).len() == k + 1 - i,
    decreases k + 1 - i,
{
    let gs_i = groups_from(dirs, bounds, i);
    if i == k + 1 {
        assert(gs_i.take(0) =~= Seq::<Seq<DirectiveModel>>::empty());
        assert(flatten_groups(gs_i.take(0)).len() == 0);
    } else {
        let j = run_end(dirs, bounds, i);
        lemma_run_end_bounds(dirs, bounds, i);
        lemma_run_end_stops(dirs, bounds, i, k);
        lemma_cut(dirs, bounds, j, k);
        let gs_j = groups_from(dirs, bounds, j);
        let m2 = choose|m2: int|
            0 <= m2 <= gs_j.len() && #[trigger] flatten_groups(gs_j.take(m2)).len() == k + 1 - j;
        let m = m2 + 1;
        assert(gs_i == seq![dirs.subrange(i, j)] + gs_j);
        assert(gs_i.take(m).drop_first() =~= gs_j.take(m2));
        assert(gs_i.take(m).len() > 0);
        assert(gs_i.take(m)[0] == dirs.subrange(i, j));
        assert(flatten_groups(gs_i.take(m)) == dirs.subrange(i, j) + flatten_groups(
            gs_i.take(m).drop_first(),
        ));
        assert(flatten_groups(gs_i.take(m)).len() == (j - i) + (k + 1 - j));
    }
}

proof fn lemma_sorted_flatten_measures(h: Seq<Seq<DirectiveModel>>)
    ensures
        flatten_groups(sorted_groups(h)).len() == flatten_groups(h).len(),
        flatten_groups(sorted_groups(h)).to_multiset() == flatten_groups(h).to_multiset(),
    decreases h.len(),
{
    broadcast use vstd::multiset::group_multiset_axioms;

    let sh = sorted_groups(h);
    if h.len() == 0 {
        assert(sh =~= Seq::<Seq<DirectiveModel>>::empty());
        assert(flatten_groups(sh).to_multiset() =~= flatten_groups(h).to_multiset());
    } else {
        lemma_sorted_flatten_measures(h.drop_first());
        assert(sh.drop_first() =~= sorted_groups(h.drop_first()));
        assert(sh[0] == sort_group_spec(h[0]));
        assert(flatten_groups(sh) == sort_group_spec(h[0]) + flatten_groups(
            sorted_groups(h.drop_first()),
        ));
        assert(flatten_groups(h) == h[0] + flatten_groups(h.drop_first()));
        lemma_sort_group_len(h[0]);
        lemma_sort_group_multiset(h[0]);
        vstd::seq_lib::lemma_multiset_commutative(
            sort_group_spec(h[0]),
            flatten_groups(sorted_groups(h.drop_first())),
        );
        vstd::seq_lib::lemma_multiset_commutative(h[0], flatten_groups(h.drop_first()));
        assert(flatten_groups(sh).to_multiset() =~= flatten_groups(h).to_multiset());
    }
}

/// Boundary respect: when a boundary line separates the consecutive
/// directives `k` and `k + 1`, the output order — every group stably
/// sorted, groups kept in place — never moves a directive across that
/// point: the first `k + 1` directives of the output are exactly the first
/// `k + 1` directives of the input, merely permuted, and likewise for the
/// rest.
pub proof fn lemma_boundary_respect(dirs: Seq<DirectiveModel>, bounds: Seq<usize>, k: int)
    requires
        0 <= k < dirs.len() - 1,
        split_after(dirs, bounds, k),
    ensures
        ({
            let f = flatten_groups(sorted_groups(group_spec(dirs, bounds)));
            &&& f.len() == dirs.len()
            &&& f.take(k + 1).to_multiset() == dirs.take(k + 1).to_multiset()
            &&& f.skip(k + 1).to_multiset() == dirs.skip(k + 1).to_multiset()
        }),
{
    broadcast use vstd::multiset::group_multiset_axioms;

    let gs = group_spec(dirs, bounds);
    let sg = sorted_groups(gs);
    let f = flatten_groups(sg);
    lemma_groups_flatten(dirs, bounds, 0);
    assert(dirs.skip(0) =~= dirs);
    assert(flatten_groups(gs) == dirs);
    lemma_cut(dirs, bounds, 0, k);
    let m = choose|m: int|
        0 <= m <= gs.len() && #[trigger] flatten_groups(gs.take(m)).len() == k + 1;
    crate::rebuild::lemma_flatten_split(gs, m);
    let pre = flatten_groups(gs.take(m));
    let post = flatten_groups(gs.skip(m));
    assert(pre + post == dirs);
    assert(pre =~= dirs.take(k + 1));
    assert(post =~= dirs.skip(k + 1));
    crate::rebuild::lemma_flatten_split(sg, m);
    assert(sg.take(m) =~= sorted_groups(gs.take(m)));
    assert(sg.skip(m) =~= sorted_groups(gs.skip(m)));
    lemma_sorted_flatten_measures(gs.take(m));
    lemma_sorted_flatten_measures(gs.skip(m));
    let spre = flatten_groups(sg.take(m));
    let spost = flatten_groups(sg.skip(m));
    assert(f == spre + spost);
    assert(spre.len() == k + 1);
    assert(f.take(k + 1) =~= spre);
    assert(f.skip(k + 1) =~= spost);
}

/// One unsplit step of the emitted line stream: between the texts of two
/// directives adjacent in the sorted output stand exactly the separator's
/// blank lines.
pub proof fn lemma_emit_structure(sg: Seq<DirectiveModel>, i: int)
    requires
        0 <= i < sg.len() - 1,
    ensures
        emit_sorted(sg.take(i + 2)) == emit_sorted(sg.take(i + 1)) + blank_lines_seq(
            separator(sg[i], sg[i + 1]),
        ) + sg[i + 1].text,
{
    let t = sg.take(i + 2);
    assert(t.len() == i + 2 >= 2);
    assert(t.drop_last() =~= sg.take(i + 1));
    assert(t[t.len() - 2] == sg[i]);
    assert(t.last() == sg[i + 1]);
}

/// Adjacent spacing law: when directive B directly followed directive A in
/// the original document and still directly follows it after sorting, the
/// blank-line count emitted between them is exactly A's original trailing
/// blank count.
pub proof fn lemma_adjacent_spacing(a: DirectiveModel, b: DirectiveModel)
    requires
        b.original_index == a.original_index + 1,
    ensures
        separator(a, b) == a.trailing_blank_lines,
{
}

/// New-neighbor spacing law: when directives A and B become adjacent only
/// through sorting, the blank-line count emitted between them is the larger
/// of their characteristic spacings.
pub proof fn lemma_new_neighbor_spacing(a: DirectiveModel, b: DirectiveModel)
    requires
        b.original_index != a.original_index + 1,
    ensures
        separator(a, b) == spec_max(a.blank_lines, b.blank_lines),
{
}

} // verus!
